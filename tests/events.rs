use gateway_core::driver::{BoundedTasks, ErrorAction, ErrorPolicy, TunnelErrorKind, MAX_CONCURRENT_DNS_QUERIES};
use gateway_core::filter::Protocol;
use gateway_core::gateway::{
    AllowAccessError, Authorization, DnsResourceNatEntry, GatewayEvent, GatewayState, NetworkAction, NodeEvent,
};
use gateway_core::grouping::{group_ids, group_strings};
use gateway_core::net::{IpAddr, IpConfig, IpNetwork};
use gateway_core::packet::{IpPacket, Transport};
use gateway_core::resource::{
    ClientId, ResourceDescription, ResourceDescriptionCidr, ResourceDescriptionDns, ResourceId,
};

fn v4(a: u8, b: u8, c: u8, d: u8) -> IpAddr {
    IpAddr::V4(u32::from_be_bytes([a, b, c, d]))
}

fn tun(last: u8) -> IpConfig {
    IpConfig { v4: u32::from_be_bytes([100, 64, 0, last]), v6: 0xfd00_2021_1111_0000_0000_0000_0000_0000 | last as u128 }
}

fn cidr(id: u128, third: u8) -> ResourceDescription {
    ResourceDescription::Cidr(ResourceDescriptionCidr {
        id: ResourceId(id),
        address: IpNetwork::new(v4(10, 0, third, 0), 24).unwrap(),
        name: "r".to_string(),
        filters: vec![],
    })
}

fn udp(src: IpAddr, dst: IpAddr) -> IpPacket {
    IpPacket { src, dst, transport: Transport::Udp { sport: 1, dport: 2 } }
}

#[test]
fn grouping_ids_by_client() {
    let pairs = vec![
        (ClientId(2), ResourceId(1)),
        (ClientId(1), ResourceId(1)),
        (ClientId(2), ResourceId(3)),
        (ClientId(2), ResourceId(1)),
    ];
    let groups = group_ids(&pairs);
    assert_eq!(groups, vec![(ClientId(2), vec![ResourceId(1), ResourceId(3)]), (ClientId(1), vec![ResourceId(1)])]);
    assert!(group_ids(&vec![]).is_empty());
}

#[test]
fn grouping_strings_by_client() {
    let pairs = vec![
        (ClientId(1), "a".to_string()),
        (ClientId(1), "b".to_string()),
        (ClientId(1), "a".to_string()),
        (ClientId(3), "c".to_string()),
    ];
    let groups = group_strings(&pairs);
    assert_eq!(
        groups,
        vec![(ClientId(1), vec!["a".to_string(), "b".to_string()]), (ClientId(3), vec!["c".to_string()])]
    );
}

#[test]
fn node_events_remove_peers_and_queue_candidates() {
    let mut g = GatewayState::new();
    g.update_tun_device(tun(254));
    g.allow_access(ClientId(1), tun(1), None, cidr(1, 0), None).unwrap();
    g.allow_access(ClientId(2), tun(2), None, cidr(1, 0), None).unwrap();
    g.handle_node_events(&vec![
        NodeEvent::NewIceCandidate { connection: ClientId(2), candidate: "x".to_string() },
        NodeEvent::ConnectionFailed(ClientId(1)),
        NodeEvent::NewIceCandidate { connection: ClientId(2), candidate: "y".to_string() },
        NodeEvent::InvalidateIceCandidate { connection: ClientId(2), candidate: "z".to_string() },
        NodeEvent::ConnectionEstablished(ClientId(2)),
    ]);
    assert!(g.handle_decapsulated(ClientId(1), udp(v4(100, 64, 0, 1), v4(10, 0, 0, 1)), 0).is_err());
    assert!(matches!(
        g.handle_decapsulated(ClientId(2), udp(v4(100, 64, 0, 2), v4(10, 0, 0, 1)), 0),
        Ok(NetworkAction::WriteTun(_))
    ));
    match g.poll_event() {
        Some(GatewayEvent::AddedIceCandidates { conn_id, candidates }) => {
            assert_eq!(conn_id, ClientId(2));
            assert_eq!(candidates, vec!["x".to_string(), "y".to_string()]);
        }
        other => panic!("unexpected {other:?}"),
    }
    match g.poll_event() {
        Some(GatewayEvent::RemovedIceCandidates { conn_id, candidates }) => {
            assert_eq!(conn_id, ClientId(2));
            assert_eq!(candidates, vec!["z".to_string()]);
        }
        other => panic!("unexpected {other:?}"),
    }
    assert!(g.poll_event().is_none());
}

#[test]
fn init_replaces_authorizations() {
    let mut g = GatewayState::new();
    g.update_tun_device(tun(254));
    g.allow_access(ClientId(1), tun(1), None, cidr(1, 0), None).unwrap();
    g.allow_access(ClientId(1), tun(1), None, cidr(2, 1), None).unwrap();
    g.apply_init(tun(253), &vec![Authorization { client_id: ClientId(1), resource_id: ResourceId(2), expires_at: 500 }]);
    assert_eq!(g.tunnel_ip_config(), Some(tun(253)));
    assert!(matches!(
        g.handle_decapsulated(ClientId(1), udp(v4(100, 64, 0, 1), v4(10, 0, 0, 1)), 0),
        Ok(NetworkAction::Reply(_, _))
    ));
    assert!(matches!(
        g.handle_decapsulated(ClientId(1), udp(v4(100, 64, 0, 1), v4(10, 0, 1, 1)), 0),
        Ok(NetworkAction::WriteTun(_))
    ));
    // The expiry came along: the authorisation lapses at 500.
    g.handle_timeout(0, 0);
    g.handle_timeout(1000, 500);
    assert!(g.handle_decapsulated(ClientId(1), udp(v4(100, 64, 0, 1), v4(10, 0, 1, 1)), 0).is_err());
}

#[test]
fn legacy_access_goes_on_without_addresses() {
    let mut g = GatewayState::new();
    let dns = || {
        ResourceDescription::Dns(ResourceDescriptionDns {
            id: ResourceId(9),
            address: "foo.com".to_string(),
            name: "foo".to_string(),
            filters: vec![],
        })
    };
    assert_eq!(
        g.allow_access_after_resolution(ClientId(1), tun(1), None, dns(), None, Err(())),
        Err(AllowAccessError::TunNotConfigured)
    );
    g.update_tun_device(tun(254));
    assert_eq!(
        g.allow_access_after_resolution(
            ClientId(1),
            tun(1),
            None,
            dns(),
            Some(("foo.com".to_string(), vec![v4(100, 96, 0, 1)])),
            Err(())
        ),
        Ok(())
    );
    // No address was resolved, so the proxy address has no translation.
    let _ = Protocol::Udp(1);
    assert!(matches!(
        g.handle_decapsulated(ClientId(1), udp(v4(100, 64, 0, 1), v4(100, 96, 0, 1)), 0),
        Ok(NetworkAction::Reply(_, _))
    ));
}

#[test]
fn tunnel_errors_are_classified() {
    let mut p = ErrorPolicy::new();
    assert_eq!(p.on_tunnel_error(TunnelErrorKind::Unreachable), ErrorAction::LogDebug);
    assert_eq!(p.on_tunnel_error(TunnelErrorKind::InvalidInput), ErrorAction::LogDebug);
    assert_eq!(p.on_tunnel_error(TunnelErrorKind::PermissionDenied), ErrorAction::ExplainPermissionDenied);
    assert_eq!(p.on_tunnel_error(TunnelErrorKind::PermissionDenied), ErrorAction::Ignore);
    assert_eq!(p.on_tunnel_error(TunnelErrorKind::ImpossibleTranslation), ErrorAction::Ignore);
    assert_eq!(p.on_tunnel_error(TunnelErrorKind::Other), ErrorAction::Warn);
    assert_eq!(p.on_tunnel_error(TunnelErrorKind::SocketThreadStopped), ErrorAction::Fatal);
}

#[test]
fn bounded_tasks_reject_the_newest() {
    let mut t = BoundedTasks::new(2);
    assert!(t.try_push());
    assert!(t.try_push());
    assert!(!t.try_push());
    assert_eq!(t.in_flight(), 2);
    t.complete();
    assert!(t.try_push());
    let big = BoundedTasks::new(MAX_CONCURRENT_DNS_QUERIES);
    assert_eq!(big.in_flight(), 0);
}

#[test]
fn retain_forgets_unlisted_clients() {
    let mut g = GatewayState::new();
    g.update_tun_device(tun(254));
    g.allow_access(ClientId(1), tun(1), None, cidr(1, 0), None).unwrap();
    g.allow_access(ClientId(2), tun(2), None, cidr(1, 0), None).unwrap();
    g.retain_authorizations(&vec![(ClientId(1), vec![ResourceId(1)])]);
    assert!(g.handle_decapsulated(ClientId(1), udp(v4(100, 64, 0, 1), v4(10, 0, 0, 1)), 0).is_ok());
    assert!(g.handle_decapsulated(ClientId(2), udp(v4(100, 64, 0, 2), v4(10, 0, 0, 1)), 0).is_err());
    // Its tunnel address no longer leads anywhere.
    assert_eq!(g.handle_tun_input(udp(v4(10, 0, 0, 1), v4(100, 64, 0, 2)), 0), Ok(None));
    g.apply_init(tun(254), &vec![]);
    assert!(g.handle_decapsulated(ClientId(1), udp(v4(100, 64, 0, 1), v4(10, 0, 0, 1)), 0).is_err());
}

#[test]
fn expiry_pass_keeps_live_clients() {
    let mut g = GatewayState::new();
    g.update_tun_device(tun(254));
    g.allow_access(ClientId(1), tun(1), Some(100), cidr(1, 0), None).unwrap();
    g.allow_access(ClientId(2), tun(2), Some(10_000), cidr(1, 0), None).unwrap();
    g.handle_timeout(0, 0);
    g.handle_timeout(1_000, 500);
    assert!(g.handle_decapsulated(ClientId(1), udp(v4(100, 64, 0, 1), v4(10, 0, 0, 1)), 0).is_err());
    assert!(g.handle_decapsulated(ClientId(2), udp(v4(100, 64, 0, 2), v4(10, 0, 0, 1)), 0).is_ok());
}

#[test]
fn accept_connection_cleans_up_on_failure() {
    let mut g = GatewayState::new();
    g.update_tun_device(tun(254));
    assert_eq!(
        g.accept_connection(ClientId(1), tun(1), None, cidr(1, 0), None, Err(())),
        Err(AllowAccessError::ResolutionFailed)
    );
    // NAT for a domain of a CIDR resource fails, and the new client is forgotten.
    let entry = DnsResourceNatEntry::new("foo.com".to_string(), vec![v4(100, 96, 0, 1)], vec![v4(10, 0, 0, 1)]);
    assert!(g.accept_connection(ClientId(1), tun(1), None, cidr(1, 0), Some(entry), Ok(())).is_err());
    assert!(g.handle_decapsulated(ClientId(1), udp(v4(100, 64, 0, 1), v4(10, 0, 0, 1)), 0).is_err());
    assert_eq!(g.accept_connection(ClientId(1), tun(1), None, cidr(1, 0), None, Ok(())), Ok(()));
    assert!(g.handle_decapsulated(ClientId(1), udp(v4(100, 64, 0, 1), v4(10, 0, 0, 1)), 0).is_ok());
}

#[test]
fn candidate_events_ascend_by_connection() {
    let mut g = GatewayState::new();
    g.handle_node_events(&vec![
        NodeEvent::NewIceCandidate { connection: ClientId(3), candidate: "c".to_string() },
        NodeEvent::NewIceCandidate { connection: ClientId(2), candidate: "b".to_string() },
        NodeEvent::NewIceCandidate { connection: ClientId(3), candidate: "c".to_string() },
    ]);
    let ids: Vec<(ClientId, usize)> = std::iter::from_fn(|| g.poll_event())
        .map(|e| match e {
            GatewayEvent::AddedIceCandidates { conn_id, candidates } => (conn_id, candidates.len()),
            other => panic!("unexpected {other:?}"),
        })
        .collect();
    assert_eq!(ids, vec![(ClientId(2), 1), (ClientId(3), 1)]);
}
