//! The gateway's state machine: it owns every client's policy state and routes packets and
//! control-plane requests to them. The encrypted transport stays outside: the caller
//! decrypts before and encrypts after.
use crate::client::{
    expire_ok, expiry_ok, inbound_ok, outbound_ok, remove_ok, retain_ok, setup_nat_ok, timeout_ok, update_ok,
    ClientOnGateway, PacketError, SetupNatError, TranslateOutboundResult,
};
use crate::grouping::{ascending_clients, group_ids, group_strings, groups_strings, lemma_groups_reordered, sort_by_client};
use crate::net::{IpAddr, IpConfig};
use crate::packet::IpPacket;
use crate::peer_store::PeerStore;
use crate::resource::{domain_listed, res_expires_at, res_is_allowed, ClientId, ResourceDescription, ResourceId, Timestamp};
use vstd::prelude::*;

verus! {

/// Port of the DNS server on the gateway's tunnel addresses.
pub const TUN_DNS_PORT: u16 = 53535;

/// How often authorisations are checked for expiry, in steady-clock milliseconds.
pub const EXPIRE_RESOURCES_INTERVAL: u64 = 1000;

/// A domain of a DNS resource that a client wants resolved, with the proxy addresses it assigned.
#[derive(Debug)]
pub struct ResolveDnsRequest {
    pub domain: String,
    pub client: ClientId,
    pub resource: ResourceId,
    pub proxy_ips: Vec<IpAddr>,
}

impl ResolveDnsRequest {
    pub fn domain(&self) -> (r: &String)
        ensures
            r@ == self.domain@,
    {
        &self.domain
    }
}

/// NAT to set up together with an authorisation, from a domain resolved beforehand.
#[derive(Debug)]
pub struct DnsResourceNatEntry {
    pub domain: String,
    pub proxy_ips: Vec<IpAddr>,
    pub resolved_ips: Vec<IpAddr>,
}

impl DnsResourceNatEntry {
    pub fn new(domain: String, proxy_ips: Vec<IpAddr>, resolved_ips: Vec<IpAddr>) -> (r: DnsResourceNatEntry)
        ensures
            r.domain@ == domain@,
            r.proxy_ips@ == proxy_ips@,
            r.resolved_ips@ == resolved_ips@,
    {
        DnsResourceNatEntry { domain, proxy_ips, resolved_ips }
    }
}

/// Work for the host.
#[derive(Debug)]
pub enum GatewayEvent {
    /// Tell the control plane about new ICE candidates of a connection.
    AddedIceCandidates { conn_id: ClientId, candidates: Vec<String> },
    /// Tell the control plane about ICE candidates of a connection that no longer hold.
    RemovedIceCandidates { conn_id: ClientId, candidates: Vec<String> },
    /// Resolve a domain, then report back with `handle_domain_resolved`.
    ResolveDns(ResolveDnsRequest),
}

/// What the encrypted transport reports about its connections.
#[derive(Debug)]
pub enum NodeEvent {
    ConnectionFailed(ClientId),
    ConnectionClosed(ClientId),
    ConnectionEstablished(ClientId),
    NewIceCandidate { connection: ClientId, candidate: String },
    InvalidateIceCandidate { connection: ClientId, candidate: String },
}

/// The `(connection, candidate)` pairs of the new (or of the invalidated) ICE candidates
/// among the transport's reports, in order.
pub open spec fn candidate_pairs(evs: Seq<NodeEvent>, new: bool) -> Seq<(ClientId, String)>
    decreases evs.len(),
{
    if evs.len() == 0 {
        Seq::empty()
    } else {
        let rest = candidate_pairs(evs.drop_last(), new);
        match evs.last() {
            NodeEvent::NewIceCandidate { connection, candidate } => if new {
                rest.push((connection, candidate))
            } else {
                rest
            },
            NodeEvent::InvalidateIceCandidate { connection, candidate } => if new {
                rest
            } else {
                rest.push((connection, candidate))
            },
            _ => rest,
        }
    }
}

/// The event that reports one connection's group of new (or invalidated) candidates.
pub open spec fn candidate_event(g: (ClientId, Vec<String>), added: bool) -> GatewayEvent {
    if added {
        GatewayEvent::AddedIceCandidates { conn_id: g.0, candidates: g.1 }
    } else {
        GatewayEvent::RemovedIceCandidates { conn_id: g.0, candidates: g.1 }
    }
}

pub open spec fn candidate_events(groups: Seq<(ClientId, Vec<String>)>, added: bool) -> Seq<GatewayEvent> {
    groups.map_values(|g: (ClientId, Vec<String>)| candidate_event(g, added))
}

/// A connection that the transport gave up on or closed.
pub open spec fn ends_connection(e: NodeEvent, id: ClientId) -> bool {
    e == NodeEvent::ConnectionFailed(id) || e == NodeEvent::ConnectionClosed(id)
}

/// One authorisation that the control plane lists on (re)connection.
#[derive(Clone, Copy, Debug, PartialEq, Eq, Structural, Hash)]
pub struct Authorization {
    pub client_id: ClientId,
    pub resource_id: ResourceId,
    pub expires_at: Timestamp,
}

/// The answer to a client about NAT for one of its domains.
#[derive(Clone, Copy, Debug, PartialEq, Eq, Structural, Hash)]
pub enum NatStatus {
    Active,
    Inactive,
}

#[derive(Clone, Copy, Debug, PartialEq, Eq, Structural, Hash)]
pub enum AllowAccessError {
    /// The gateway's tunnel addresses are not known yet.
    TunNotConfigured,
    SetupNat(SetupNatError),
    /// The domain of a connection request could not be resolved.
    ResolutionFailed,
}

/// A packet arrived from a client that the gateway has no state for.
#[derive(Clone, Copy, Debug, PartialEq, Eq, Structural, Hash)]
pub struct UnknownPeer(pub ClientId);

/// What to do with a packet that a client sent through the tunnel.
#[derive(Clone, Copy, Debug, PartialEq, Eq, Structural, Hash)]
pub enum NetworkAction {
    /// Write the packet to the TUN device.
    WriteTun(IpPacket),
    /// Encrypt the packet and send it back to the client.
    Reply(ClientId, IpPacket),
}

/// What to do about an `AssignedIps` control message.
#[derive(Debug)]
pub enum ControlAction {
    /// Answer the client at once with this status.
    Reply(NatStatus),
    /// A resolution request was queued.
    Queued,
}

/// The client with id `id` among `ps`.
pub open spec fn peer_of(ps: Seq<ClientOnGateway>, id: ClientId) -> ClientOnGateway {
    ps[choose|i: int| 0 <= i < ps.len() && (#[trigger] ps[i]).id_spec() == id]
}

pub struct GatewayState {
    peers: PeerStore,
    /// When to next check whether an authorisation has expired.
    next_expiry_resources_check: Option<u64>,
    tun_ip_config: Option<IpConfig>,
    buffered_events: Vec<GatewayEvent>,
}

impl GatewayState {
    pub closed spec fn store(self) -> PeerStore {
        self.peers
    }

    pub closed spec fn tun_config(self) -> Option<IpConfig> {
        self.tun_ip_config
    }

    pub closed spec fn next_check(self) -> Option<u64> {
        self.next_expiry_resources_check
    }

    /// The queued events, oldest first.
    pub closed spec fn events(self) -> Seq<GatewayEvent> {
        self.buffered_events@
    }

    pub open spec fn events_len(self) -> nat {
        self.events().len()
    }

    pub open spec fn inv(self) -> bool {
        self.store().inv()
    }

    pub open spec fn has_peer(self, id: ClientId) -> bool {
        self.store().has_peer(id)
    }

    pub open spec fn peer(self, id: ClientId) -> ClientOnGateway {
        peer_of(self.store().peers(), id)
    }

    pub fn new() -> (r: GatewayState)
        ensures
            r.inv(),
            r.tun_config() is None,
            r.next_check() is None,
            r.events_len() == 0,
            forall|id: ClientId| !r.has_peer(id),
    {
        GatewayState {
            peers: PeerStore::new(),
            next_expiry_resources_check: None,
            tun_ip_config: None,
            buffered_events: Vec::new(),
        }
    }

    pub fn tunnel_ip_config(&self) -> (r: Option<IpConfig>)
        ensures
            r == self.tun_config(),
    {
        self.tun_ip_config
    }

    pub fn update_tun_device(&mut self, config: IpConfig)
        ensures
            final(self).tun_config() == Some(config),
            final(self).store() == old(self).store(),
            final(self).next_check() == old(self).next_check(),
            final(self).events_len() == old(self).events_len(),
    {
        self.tun_ip_config = Some(config);
    }

    /// Forgets a client and the tunnel addresses registered to it.
    pub fn cleanup_connection(&mut self, id: ClientId)
        requires
            old(self).inv(),
        ensures
            final(self).inv(),
            !final(self).has_peer(id),
            forall|other: ClientId| other != id ==> #[trigger] final(self).has_peer(other) == old(self).has_peer(other),
            forall|other: ClientId| other != id && #[trigger] final(self).has_peer(other)
                ==> final(self).peer(other) == old(self).peer(other),
            forall|x: IpAddr| #[trigger] final(self).store().ip_owner(x) == if old(self).store().ip_owner(x) == Some(id) {
                None
            } else {
                old(self).store().ip_owner(x)
            },
            final(self).tun_config() == old(self).tun_config(),
            final(self).events() == old(self).events(),
            final(self).next_check() == old(self).next_check(),
    {
        let ghost before = self.peers;
        self.peers.remove(id);
        proof {
            assert forall|other: ClientId| other != id && #[trigger] self.has_peer(other)
                implies self.peer(other) == old(self).peer(other) by {
                lemma_peer_of_subset(before, self.peers, other);
            }
        }
    }

    /// Grants a client access to a resource, creating its state on first contact, and sets
    /// up NAT for a resolved domain where one comes along. Fails only where the gateway's
    /// tunnel addresses are unknown, or where that NAT cannot be set up.
    pub fn allow_access(
        &mut self,
        client: ClientId,
        client_tun: IpConfig,
        expires_at: Option<Timestamp>,
        resource: ResourceDescription,
        dns_resource_nat: Option<DnsResourceNatEntry>,
    ) -> (r: Result<(), AllowAccessError>)
        requires
            old(self).inv(),
            crate::resource::description_wf(resource),
        ensures
            final(self).inv(),
            final(self).tun_config() == old(self).tun_config(),
            final(self).events() == old(self).events(),
            (r == Err::<(), AllowAccessError>(AllowAccessError::TunNotConfigured)) <==> old(self).tun_config() is None,
            old(self).tun_config() is None ==> final(self).store() == old(self).store(),
            old(self).tun_config() is Some && dns_resource_nat is None ==> r is Ok,
            old(self).tun_config() is Some ==> final(self).has_peer(client)
                && final(self).peer(client).has_resource(resource.id_spec()),
            r is Ok ==> final(self).store().ip_owner(IpAddr::V4(client_tun.v4)) == Some(client)
                && final(self).store().ip_owner(IpAddr::V6(client_tun.v6)) == Some(client),
            r is Ok && dns_resource_nat is Some ==> final(self).peer(client).resource(resource.id_spec()) is Dns
                && domain_listed(
                final(self).peer(client).resource(resource.id_spec())->Dns_domains@,
                dns_resource_nat->Some_0.domain@,
                dns_resource_nat->Some_0.resolved_ips@,
            ),
            forall|other: ClientId| other != client ==> #[trigger] final(self).has_peer(other) == old(self).has_peer(other),
            forall|other: ClientId| other != client && #[trigger] final(self).has_peer(other)
                ==> final(self).peer(other) == old(self).peer(other),
    {
        let gateway_tun = match self.tun_ip_config {
            None => {
                return Err(AllowAccessError::TunNotConfigured);
            },
            Some(c) => c,
        };
        let ghost start = self.peers;
        let i = match self.peers.index_of(client) {
            Some(i) => i,
            None => {
                self.peers.insert(ClientOnGateway::new(client, client_tun, gateway_tun));
                assert(self.peers.peers()[self.peers.peers().len() - 1].id_spec() == client);
                self.peers.len() - 1
            },
        };
        proof {
            assert forall|p: ClientOnGateway| #[trigger] start.peers().contains(p) implies self.peers.peers().contains(p) by {
                let k = choose|k: int| 0 <= k < start.peers().len() && start.peers()[k] == p;
                assert(self.peers.peers()[k] == p);
            }
            assert forall|other: ClientId| other != client && #[trigger] start.has_peer(other)
                implies peer_of(self.peers.peers(), other) == peer_of(start.peers(), other) by {
                lemma_peer_of_subset(self.peers, start, other);
            }
        }
        let ghost orig = self.peers;
        let mut peer = self.peers.take(i);
        let rid = resource.id();
        peer.add_resource(resource, expires_at);
        let res = match dns_resource_nat {
            Some(entry) => peer.setup_nat(entry.domain, rid, entry.resolved_ips, entry.proxy_ips),
            None => Ok(()),
        };
        let ghost p = peer;
        self.peers.put_back(i, peer, Ghost(orig));
        proof {
            lemma_peer_of_update(orig, self.peers, i as int, p);
        }
        if let Err(e) = res {
            return Err(AllowAccessError::SetupNat(e));
        }
        self.peers.add_ip(client, IpAddr::V4(client_tun.v4));
        self.peers.add_ip(client, IpAddr::V6(client_tun.v6));
        Ok(())
    }

    /// Revokes a client's access to a resource; a client left without resources is
    /// forgotten, with its tunnel addresses. An unknown client changes nothing.
    pub fn remove_access(&mut self, cid: ClientId, rid: ResourceId)
        requires
            old(self).inv(),
        ensures
            final(self).inv(),
            !old(self).has_peer(cid) ==> final(self).store() == old(self).store(),
            old(self).has_peer(cid) ==> exists|c1: ClientOnGateway| #[trigger] remove_ok(old(self).peer(cid), c1, rid) && {
                &&& c1.resources().len() > 0 ==> final(self).has_peer(cid) && final(self).peer(cid) == c1
                &&& c1.resources().len() == 0 ==> !final(self).has_peer(cid)
                    && forall|x: IpAddr| #[trigger] final(self).store().ip_owner(x) != Some(cid)
            },
            forall|other: ClientId| other != cid ==> #[trigger] final(self).has_peer(other) == old(self).has_peer(other),
            forall|other: ClientId| other != cid && #[trigger] final(self).has_peer(other)
                ==> final(self).peer(other) == old(self).peer(other),
            final(self).tun_config() == old(self).tun_config(),
            final(self).events() == old(self).events(),
    {
        let i = match self.peers.index_of(cid) {
            None => {
                return;
            },
            Some(i) => i,
        };
        let ghost orig = self.peers;
        proof {
            lemma_peer_of(orig.peers(), i as int, orig);
            orig.lemma_owner_present();
        }
        let mut peer = self.peers.take(i);
        peer.remove_resource(rid);
        let emptied = peer.is_emptied();
        let ghost p = peer;
        self.peers.put_back(i, peer, Ghost(orig));
        proof {
            lemma_peer_of_update(orig, self.peers, i as int, p);
            assert(remove_ok(old(self).peer(cid), p, rid));
        }
        if emptied {
            let ghost mid = self.peers;
            self.peers.remove(cid);
            proof {
                assert forall|other: ClientId| other != cid && #[trigger] self.has_peer(other)
                    implies self.peer(other) == old(self).peer(other) by {
                    lemma_peer_of_subset(mid, self.peers, other);
                }
                assert forall|x: IpAddr| #[trigger] self.store().ip_owner(x) != Some(cid) by {}
            }
        }
    }

    /// Moves the expiry of a client's authorisation for a resource.
    pub fn update_access_authorization_expiry(
        &mut self,
        client: ClientId,
        resource: ResourceId,
        expires_at: Timestamp,
    ) -> (r: Result<(), UnknownPeer>)
        requires
            old(self).inv(),
        ensures
            final(self).inv(),
            r is Err <==> !old(self).has_peer(client),
            !old(self).has_peer(client) ==> final(self).store() == old(self).store(),
            old(self).has_peer(client) ==> expiry_ok(old(self).peer(client), final(self).peer(client), resource, expires_at),
            final(self).tun_config() == old(self).tun_config(),
            final(self).events() == old(self).events(),
            forall|id: ClientId| #[trigger] final(self).has_peer(id) == old(self).has_peer(id),
            forall|id: ClientId| id != client && #[trigger] final(self).has_peer(id) ==> final(self).peer(id) == old(self).peer(id),
    {
        let i = match self.peers.index_of(client) {
            None => {
                return Err(UnknownPeer(client));
            },
            Some(i) => i,
        };
        let ghost orig = self.peers;
        proof {
            lemma_peer_of(orig.peers(), i as int, orig);
        }
        let mut peer = self.peers.take(i);
        peer.update_resource_expiry(resource, expires_at);
        let ghost p = peer;
        self.peers.put_back(i, peer, Ghost(orig));
        proof {
            lemma_peer_of_update(orig, self.peers, i as int, p);
        }
        Ok(())
    }

    /// Hands a newer description of a resource to every client: each client that holds it
    /// takes its new filters, and the others stay as they are.
    pub fn update_resource(&mut self, resource: &ResourceDescription)
        requires
            old(self).inv(),
        ensures
            final(self).inv(),
            forall|id: ClientId| #[trigger] final(self).has_peer(id) == old(self).has_peer(id),
            forall|id: ClientId| #[trigger] final(self).has_peer(id)
                ==> update_ok(old(self).peer(id), final(self).peer(id), *resource),
            final(self).tun_config() == old(self).tun_config(),
            final(self).events() == old(self).events(),
    {
        let ghost start = self.peers;
        let mut i: usize = 0;
        while i < self.peers.len()
            invariant
                self.inv(),
                start.inv(),
                self.peers.peers().len() == start.peers().len(),
                i <= start.peers().len(),
                self.tun_ip_config == old(self).tun_ip_config,
                self.buffered_events == old(self).buffered_events,
                start == old(self).peers,
                forall|j: int| 0 <= j < i ==> update_ok(start.peers()[j], #[trigger] self.peers.peers()[j], *resource),
                forall|j: int| i <= j < start.peers().len() ==> #[trigger] self.peers.peers()[j] == start.peers()[j],
            decreases self.peers.peers().len() - i,
        {
            let ghost orig = self.peers;
            let mut peer = self.peers.take(i);
            peer.update_resource(resource);
            self.peers.put_back(i, peer, Ghost(orig));
            i = i + 1;
        }
        proof {
            assert forall|id: ClientId| #[trigger] self.has_peer(id) == old(self).has_peer(id) by {
                if self.has_peer(id) {
                    let j = choose|j: int| 0 <= j < self.peers.peers().len() && (#[trigger] self.peers.peers()[j]).id_spec() == id;
                    assert(update_ok(start.peers()[j], self.peers.peers()[j], *resource));
                    assert(start.peers()[j].id_spec() == id);
                }
                if old(self).has_peer(id) {
                    let j = choose|j: int| 0 <= j < start.peers().len() && (#[trigger] start.peers()[j]).id_spec() == id;
                    assert(update_ok(start.peers()[j], self.peers.peers()[j], *resource));
                    assert(self.peers.peers()[j].id_spec() == id);
                }
            }
            assert forall|id: ClientId| #[trigger] self.has_peer(id)
                implies update_ok(old(self).peer(id), self.peer(id), *resource) by {
                let j = choose|j: int| 0 <= j < self.peers.peers().len() && (#[trigger] self.peers.peers()[j]).id_spec() == id;
                assert(update_ok(start.peers()[j], self.peers.peers()[j], *resource));
                lemma_peer_of(self.peers.peers(), j, self.peers);
                lemma_peer_of(start.peers(), j, start);
            }
        }
    }

    /// Keeps, for each listed client, only the resources that every list of it names, and
    /// forgets the clients that are not listed.
    pub fn retain_authorizations(&mut self, authorizations: &Vec<(ClientId, Vec<ResourceId>)>)
        requires
            old(self).inv(),
        ensures
            final(self).inv(),
            final(self).tun_config() == old(self).tun_config(),
            final(self).events() == old(self).events(),
            forall|id: ClientId| #[trigger] final(self).has_peer(id) == (old(self).has_peer(id) && listed(authorizations@, id)),
            forall|id: ClientId, rid: ResourceId| final(self).has_peer(id) ==> (#[trigger] final(self).peer(id).has_resource(rid)
                <==> old(self).peer(id).has_resource(rid) && lists_contain(authorizations@, id, rid)),
            forall|id: ClientId, rid: ResourceId| final(self).has_peer(id) && #[trigger] final(self).peer(id).has_resource(rid)
                ==> final(self).peer(id).resource(rid) == old(self).peer(id).resource(rid),
    {
        let mut k: usize = 0;
        while k < authorizations.len()
            invariant
                k <= authorizations@.len(),
                self.inv(),
                self.tun_ip_config == old(self).tun_ip_config,
                self.buffered_events == old(self).buffered_events,
                forall|id: ClientId| #[trigger] self.has_peer(id) == old(self).has_peer(id),
                forall|id: ClientId, rid: ResourceId| self.has_peer(id) ==> (#[trigger] self.peer(id).has_resource(rid)
                    <==> old(self).peer(id).has_resource(rid) && lists_contain(authorizations@.take(k as int), id, rid)),
                forall|id: ClientId, rid: ResourceId| self.has_peer(id) && #[trigger] self.peer(id).has_resource(rid)
                    ==> self.peer(id).resource(rid) == old(self).peer(id).resource(rid),
            decreases authorizations.len() - k,
        {
            let client = authorizations[k].0;
            let ghost g0 = *self;
            let ghost t0 = authorizations@.take(k as int);
            let ghost t1 = authorizations@.take(k + 1);
            proof {
                assert(t1 == t0.push(authorizations@[k as int]));
            }
            if let Some(i) = self.peers.index_of(client) {
                let ghost orig = self.peers;
                proof {
                    lemma_peer_of(orig.peers(), i as int, orig);
                }
                let mut peer = self.peers.take(i);
                peer.retain_authorizations(&authorizations[k].1);
                let ghost p = peer;
                self.peers.put_back(i, peer, Ghost(orig));
                proof {
                    lemma_peer_of_update(orig, self.peers, i as int, p);
                    assert forall|id: ClientId| #[trigger] self.has_peer(id) == g0.has_peer(id) by {
                        assert(self.peers.has_peer(id) == orig.has_peer(id));
                    }
                    assert forall|id: ClientId, rid: ResourceId| self.has_peer(id) implies (#[trigger] self.peer(id).has_resource(rid)
                        <==> old(self).peer(id).has_resource(rid) && lists_contain(t1, id, rid)) by {
                        assert(lists_contain(t1, id, rid) == (lists_contain(t0, id, rid)
                            && (t1[k as int].0 == id ==> t1[k as int].1@.contains(rid))));
                        if id != client {
                            assert(self.peer(id) == g0.peer(id));
                        } else {
                            assert(self.peer(id) == p);
                            assert(g0.peer(id) == orig.peers()[i as int]);
                            assert(retain_ok(g0.peer(id), p, authorizations@[k as int].1@));
                            assert(g0.peer(id).has_resource(rid) <==> old(self).peer(id).has_resource(rid)
                                && lists_contain(t0, id, rid));
                            assert(p.has_resource(rid) <==> g0.peer(id).has_resource(rid)
                                && authorizations@[k as int].1@.contains(rid));
                        }
                    }
                    assert forall|id: ClientId, rid: ResourceId| self.has_peer(id) && #[trigger] self.peer(id).has_resource(rid)
                        implies self.peer(id).resource(rid) == old(self).peer(id).resource(rid) by {
                        if id != client {
                            assert(self.peer(id) == g0.peer(id));
                        } else {
                            assert(g0.peer(id).has_resource(rid));
                        }
                    }
                }
            } else {
                proof {
                    assert forall|id: ClientId, rid: ResourceId| self.has_peer(id) implies (#[trigger] self.peer(id).has_resource(rid)
                        <==> old(self).peer(id).has_resource(rid) && lists_contain(t1, id, rid)) by {
                        assert(lists_contain(t1, id, rid) == (lists_contain(t0, id, rid)
                            && (t1[k as int].0 == id ==> t1[k as int].1@.contains(rid))));
                        assert(self.peers.has_peer(id));
                        assert(id != client);
                        assert(self.peer(id).has_resource(rid) <==> old(self).peer(id).has_resource(rid)
                            && lists_contain(t0, id, rid));
                    }
                }
            }
            k = k + 1;
        }
        proof {
            assert(authorizations@.take(authorizations@.len() as int) == authorizations@);
        }
        let mut mask: Vec<bool> = Vec::new();
        let mut j: usize = 0;
        while j < self.peers.len()
            invariant
                j <= self.peers.peers().len(),
                mask@.len() == j,
                forall|m: int| 0 <= m < j ==> #[trigger] mask@[m] == listed(authorizations@, self.peers.peers()[m].id_spec()),
            decreases self.peers.peers().len() - j,
        {
            mask.push(is_listed(authorizations, self.peers.get(j).id()));
            j = j + 1;
        }
        let ghost mid = *self;
        self.peers.keep(&mask);
        proof {
            assert forall|id: ClientId| #[trigger] self.has_peer(id) == (mid.has_peer(id) && listed(authorizations@, id)) by {
                if mid.has_peer(id) && listed(authorizations@, id) {
                    let m = choose|m: int| 0 <= m < mid.peers.peers().len() && (#[trigger] mid.peers.peers()[m]).id_spec() == id;
                    assert(mask@[m]);
                }
            }
            assert forall|id: ClientId| #[trigger] self.has_peer(id) implies self.peer(id) == mid.peer(id) by {
                lemma_peer_of_subset(mid.peers, self.peers, id);
            }
        }
    }

    /// A packet from the TUN device: the client that its destination is registered to
    /// decides it with `translate_inbound`. Returns the client to encrypt it for, and the
    /// packet; `None` where it is dropped, also where the destination belongs to nobody.
    pub fn handle_tun_input(&mut self, packet: IpPacket, now: u64) -> (r: Result<Option<(ClientId, IpPacket)>, PacketError>)
        requires
            old(self).inv(),
        ensures
            final(self).inv(),
            forall|id: ClientId| #[trigger] final(self).has_peer(id) == old(self).has_peer(id),
            final(self).tun_config() == old(self).tun_config(),
            final(self).events() == old(self).events(),
            old(self).store().ip_owner(packet.dst) is None ==> r == Ok::<Option<(ClientId, IpPacket)>, PacketError>(None)
                && final(self).store() == old(self).store(),
            old(self).store().ip_owner(packet.dst) matches Some(cid) ==> {
                &&& old(self).has_peer(cid)
                &&& forall|id: ClientId| id != cid && #[trigger] final(self).has_peer(id)
                    ==> final(self).peer(id) == old(self).peer(id)
                &&& exists|res: Result<Option<IpPacket>, PacketError>|
                    inbound_ok(old(self).peer(cid), final(self).peer(cid), packet, now, res)
                        && #[trigger] inbound_action(cid, res) == r
            },
    {
        let cid = match self.peers.peer_by_ip(packet.dst) {
            None => {
                return Ok(None);
            },
            Some(cid) => cid,
        };
        proof {
            self.peers.lemma_owner_present();
        }
        let i = match self.peers.index_of(cid) {
            None => {
                return Ok(None);
            },
            Some(i) => i,
        };
        let ghost orig = self.peers;
        proof {
            lemma_peer_of(orig.peers(), i as int, orig);
        }
        let mut peer = self.peers.take(i);
        let res = peer.translate_inbound(packet, now);
        let ghost p = peer;
        self.peers.put_back(i, peer, Ghost(orig));
        proof {
            lemma_peer_of_update(orig, self.peers, i as int, p);
        }
        let r = match res {
            Ok(Some(p)) => Ok(Some((cid, p))),
            Ok(None) => Ok(None),
            Err(e) => Err(e),
        };
        assert(inbound_action(cid, res) == r);
        r
    }

    /// A packet that client `cid` sent through the tunnel, after decryption: the client's
    /// `translate_outbound` decides, and its answer becomes the action.
    pub fn handle_decapsulated(&mut self, cid: ClientId, packet: IpPacket, now: u64) -> (r: Result<NetworkAction, GatewayError>)
        requires
            old(self).inv(),
        ensures
            final(self).inv(),
            forall|id: ClientId| #[trigger] final(self).has_peer(id) == old(self).has_peer(id),
            forall|id: ClientId| id != cid && #[trigger] final(self).has_peer(id) ==> final(self).peer(id) == old(self).peer(id),
            final(self).tun_config() == old(self).tun_config(),
            final(self).events() == old(self).events(),
            !old(self).has_peer(cid) ==> r == Err::<NetworkAction, GatewayError>(GatewayError::UnknownPeer(cid))
                && final(self).store() == old(self).store(),
            old(self).has_peer(cid) ==> exists|res: Result<TranslateOutboundResult, PacketError>|
                outbound_ok(old(self).peer(cid), final(self).peer(cid), packet, now, res)
                    && #[trigger] outbound_action(cid, res) == r,
    {
        let i = match self.peers.index_of(cid) {
            None => {
                return Err(GatewayError::UnknownPeer(cid));
            },
            Some(i) => i,
        };
        let ghost orig = self.peers;
        proof {
            lemma_peer_of(orig.peers(), i as int, orig);
        }
        let mut peer = self.peers.take(i);
        let res = peer.translate_outbound(packet, now);
        let ghost p = peer;
        self.peers.put_back(i, peer, Ghost(orig));
        proof {
            lemma_peer_of_update(orig, self.peers, i as int, p);
        }
        let r = match res {
            Ok(TranslateOutboundResult::Send(p)) => Ok(NetworkAction::WriteTun(p)),
            Ok(TranslateOutboundResult::DestinationUnreachable(reply)) => Ok(NetworkAction::Reply(cid, reply)),
            Ok(TranslateOutboundResult::Filtered(reply)) => Ok(NetworkAction::Reply(cid, reply)),
            Err(e) => Err(GatewayError::Packet(e)),
        };
        assert(outbound_action(cid, res) == r);
        r
    }

    /// A client told the gateway which proxy addresses it assigned to a domain of a DNS
    /// resource. Unless the client holds the resource, the answer is `Inactive` at once;
    /// otherwise a resolution request for it is queued.
    pub fn handle_assigned_ips(
        &mut self,
        cid: ClientId,
        resource: ResourceId,
        domain: String,
        proxy_ips: Vec<IpAddr>,
    ) -> (r: Result<ControlAction, UnknownPeer>)
        requires
            old(self).inv(),
        ensures
            final(self).inv(),
            final(self).store() == old(self).store(),
            final(self).tun_config() == old(self).tun_config(),
            r is Err <==> !old(self).has_peer(cid),
            old(self).has_peer(cid) && !old(self).peer(cid).has_resource(resource) ==> (r matches Ok(
                ControlAction::Reply(NatStatus::Inactive),
            )) && final(self).events() == old(self).events(),
            old(self).has_peer(cid) && old(self).peer(cid).has_resource(resource) ==> (r matches Ok(ControlAction::Queued))
                && final(self).events() == old(self).events().push(
                GatewayEvent::ResolveDns(ResolveDnsRequest { domain, client: cid, resource, proxy_ips }),
            ),
            !old(self).has_peer(cid) ==> final(self).events() == old(self).events(),
    {
        let i = match self.peers.index_of(cid) {
            None => {
                return Err(UnknownPeer(cid));
            },
            Some(i) => i,
        };
        proof {
            lemma_peer_of(self.peers.peers(), i as int, self.peers);
        }
        if !self.peers.get(i).is_allowed(resource) {
            return Ok(ControlAction::Reply(NatStatus::Inactive));
        }
        self.buffered_events.push(GatewayEvent::ResolveDns(ResolveDnsRequest { domain, client: cid, resource, proxy_ips }));
        Ok(ControlAction::Queued)
    }

    /// The outcome of resolving a requested domain. Where resolution succeeded and the client
    /// is known, its `setup_nat` runs and decides: `Active` exactly where that succeeded.
    /// Otherwise the answer is `Inactive` and nothing changes. Either way one answer is due.
    pub fn handle_domain_resolved(&mut self, req: ResolveDnsRequest, resolve_result: Result<Vec<IpAddr>, ()>) -> (r: NatStatus)
        requires
            old(self).inv(),
        ensures
            final(self).inv(),
            forall|id: ClientId| #[trigger] final(self).has_peer(id) == old(self).has_peer(id),
            forall|id: ClientId| id != req.client && #[trigger] final(self).has_peer(id)
                ==> final(self).peer(id) == old(self).peer(id),
            final(self).tun_config() == old(self).tun_config(),
            final(self).events() == old(self).events(),
            resolve_result is Err || !old(self).has_peer(req.client) ==> r == NatStatus::Inactive
                && final(self).store() == old(self).store(),
            resolve_result is Ok && old(self).has_peer(req.client) ==> exists|res: Result<(), SetupNatError>|
                #[trigger] setup_nat_ok(old(self).peer(req.client), final(self).peer(req.client), req.domain@, req.resource,
                    resolve_result->Ok_0@, req.proxy_ips@, res) && (r == NatStatus::Active <==> res is Ok),
    {
        let addresses = match resolve_result {
            Ok(a) => a,
            Err(()) => {
                return NatStatus::Inactive;
            },
        };
        let i = match self.peers.index_of(req.client) {
            None => {
                return NatStatus::Inactive;
            },
            Some(i) => i,
        };
        let ghost orig = self.peers;
        proof {
            lemma_peer_of(orig.peers(), i as int, orig);
        }
        let ghost name = req.domain@;
        let ghost ips = addresses@;
        let ghost proxies = req.proxy_ips@;
        let mut peer = self.peers.take(i);
        let res = peer.setup_nat(req.domain, req.resource, addresses, req.proxy_ips);
        let ghost p = peer;
        self.peers.put_back(i, peer, Ghost(orig));
        proof {
            lemma_peer_of_update(orig, self.peers, i as int, p);
            assert(setup_nat_ok(old(self).peer(req.client), self.peer(req.client), name, req.resource, ips, proxies, res));
        }
        match res {
            Ok(()) => NatStatus::Active,
            Err(_) => NatStatus::Inactive,
        }
    }

    /// The earliest of the next expiry check and the transport's own deadline.
    pub fn poll_timeout(&self, node_deadline: Option<u64>) -> (r: Option<u64>)
        ensures
            r == match (self.next_check(), node_deadline) {
                (Some(a), Some(b)) => Some(if a <= b { a } else { b }),
                (Some(a), None) => Some(a),
                (None, b) => b,
            },
    {
        match (self.next_expiry_resources_check, node_deadline) {
            (Some(a), Some(b)) => Some(if a <= b { a } else { b }),
            (Some(a), None) => Some(a),
            (None, b) => b,
        }
    }

    /// Advances time. Once the check is due, every client drops expired authorisations and
    /// idle NAT sessions, exactly the clients left without resources are forgotten, and the
    /// next check is scheduled one interval later.
    pub fn handle_timeout(&mut self, now: u64, utc_now: Timestamp)
        requires
            old(self).inv(),
        ensures
            final(self).inv(),
            final(self).tun_config() == old(self).tun_config(),
            final(self).events() == old(self).events(),
            old(self).next_check() is None ==> final(self).next_check() == Some(next_check_after(now))
                && final(self).store() == old(self).store(),
            old(self).next_check() matches Some(t) && now < t ==> final(self).next_check() == old(self).next_check()
                && final(self).store() == old(self).store(),
            old(self).next_check() matches Some(t) && now >= t ==> {
                &&& final(self).next_check() == Some(next_check_after(now))
                &&& forall|id: ClientId| #[trigger] final(self).has_peer(id) == (old(self).has_peer(id)
                    && exists|rid: ResourceId| #[trigger] old(self).peer(id).has_resource(rid)
                        && res_is_allowed(old(self).peer(id).resource(rid), utc_now))
                &&& forall|id: ClientId| #[trigger] final(self).has_peer(id) ==> swept(old(self).peer(id), final(self).peer(id), utc_now, now)
            },
    {
        let next = if now <= u64::MAX - EXPIRE_RESOURCES_INTERVAL { now + EXPIRE_RESOURCES_INTERVAL } else { u64::MAX };
        match self.next_expiry_resources_check {
            None => {
                self.next_expiry_resources_check = Some(next);
            },
            Some(t) => {
                if now >= t {
                    let ghost start = self.peers;
                    let mut i: usize = 0;
                    while i < self.peers.len()
                        invariant
                            self.inv(),
                            start == old(self).peers,
                            start.inv(),
                            self.peers.peers().len() == start.peers().len(),
                            i <= start.peers().len(),
                            self.tun_ip_config == old(self).tun_ip_config,
                            self.buffered_events == old(self).buffered_events,
                            forall|j: int| 0 <= j < i ==> swept(start.peers()[j], #[trigger] self.peers.peers()[j], utc_now, now),
                            forall|j: int| i <= j < start.peers().len() ==> #[trigger] self.peers.peers()[j] == start.peers()[j],
                        decreases self.peers.peers().len() - i,
                    {
                        let ghost orig = self.peers;
                        let mut peer = self.peers.take(i);
                        peer.expire_resources(utc_now);
                        let ghost c = peer;
                        peer.handle_timeout(now);
                        let ghost p2 = peer;
                        self.peers.put_back(i, peer, Ghost(orig));
                        proof {
                            assert forall|j: int| 0 <= j < i + 1 implies swept(start.peers()[j], #[trigger] self.peers.peers()[j], utc_now, now) by {
                                if j == i {
                                    assert(self.peers.peers()[j] == p2);
                                    assert(orig.peers()[j] == start.peers()[j]);
                                    assert(expire_ok(start.peers()[j], c, utc_now));
                                    assert(timeout_ok(c, self.peers.peers()[j], now));
                                } else {
                                    assert(self.peers.peers()[j] == orig.peers()[j]);
                                }
                            }
                        }
                        i = i + 1;
                    }
                    let ghost mid = self.peers;
                    self.peers.retain_non_empty();
                    self.next_expiry_resources_check = Some(next);
                    proof {
                        assert forall|id: ClientId| #[trigger] self.has_peer(id) == (old(self).has_peer(id)
                            && exists|rid: ResourceId| #[trigger] old(self).peer(id).has_resource(rid)
                                && res_is_allowed(old(self).peer(id).resource(rid), utc_now)) by {
                            if old(self).has_peer(id) {
                                let m = choose|m: int| 0 <= m < start.peers().len() && (#[trigger] start.peers()[m]).id_spec() == id;
                                lemma_peer_of(start.peers(), m, start);
                                assert(swept(start.peers()[m], mid.peers()[m], utc_now, now));
                                let c = choose|c: ClientOnGateway|
                                    expire_ok(start.peers()[m], c, utc_now) && #[trigger] timeout_ok(c, mid.peers()[m], now);
                                assert(mid.peers()[m].id_spec() == id);
                                assert(mid.peers()[m].resources() == c.resources());
                                lemma_nonempty(c.resources());
                                if exists|rid: ResourceId| #[trigger] old(self).peer(id).has_resource(rid)
                                    && res_is_allowed(old(self).peer(id).resource(rid), utc_now) {
                                    let rid = choose|rid: ResourceId| #[trigger] old(self).peer(id).has_resource(rid)
                                        && res_is_allowed(old(self).peer(id).resource(rid), utc_now);
                                    assert(c.has_resource(rid));
                                    assert(mid.peers()[m].resources().len() > 0);
                                }
                                if self.has_peer(id) {
                                    let m2 = choose|i: int| 0 <= i < mid.peers().len() && mid.peers()[i].id_spec() == id
                                        && (#[trigger] mid.peers()[i]).resources().len() > 0;
                                    if m2 != m {
                                        assert(mid.peers()[m2].id_spec() != mid.peers()[m].id_spec());
                                    }
                                    let rid = choose|rid: ResourceId| #[trigger] has_res_of(c.resources(), rid);
                                    assert(c.has_resource(rid));
                                }
                            }
                            if self.has_peer(id) {
                                let m2 = choose|i: int| 0 <= i < mid.peers().len() && mid.peers()[i].id_spec() == id
                                    && (#[trigger] mid.peers()[i]).resources().len() > 0;
                                assert(swept(start.peers()[m2], mid.peers()[m2], utc_now, now));
                                let c = choose|c: ClientOnGateway|
                                    expire_ok(start.peers()[m2], c, utc_now) && #[trigger] timeout_ok(c, mid.peers()[m2], now);
                                assert(start.peers()[m2].id_spec() == id);
                            }
                        }
                        assert forall|id: ClientId| #[trigger] self.has_peer(id) implies swept(old(self).peer(id), self.peer(id), utc_now, now) by {
                            lemma_peer_of_subset(mid, self.peers, id);
                            let m = choose|m: int| 0 <= m < mid.peers().len() && (#[trigger] mid.peers()[m]).id_spec() == id;
                            lemma_peer_of(mid.peers(), m, mid);
                            assert(swept(start.peers()[m], mid.peers()[m], utc_now, now));
                            assert(start.peers()[m].id_spec() == id);
                            lemma_peer_of(start.peers(), m, start);
                            assert(self.peer(id) == mid.peers()[m]);
                        }
                    }
                }
            },
        }
    }

    /// Applies the transport's reports: clients whose connection failed or closed are
    /// forgotten, and new and invalidated ICE candidates are queued as one event per
    /// connection each, in ascending order of connection, new ones first.
    pub fn handle_node_events(&mut self, events: &Vec<NodeEvent>)
        requires
            old(self).inv(),
        ensures
            final(self).inv(),
            final(self).tun_config() == old(self).tun_config(),
            forall|id: ClientId| (exists|i: int| 0 <= i < events@.len() && ends_connection(#[trigger] events@[i], id))
                ==> !final(self).has_peer(id),
            forall|id: ClientId| (forall|i: int| 0 <= i < events@.len() ==> !ends_connection(#[trigger] events@[i], id))
                ==> final(self).has_peer(id) == old(self).has_peer(id),
            exists|ga: Seq<(ClientId, Vec<String>)>, gr: Seq<(ClientId, Vec<String>)>|
                #![trigger groups_strings(candidate_pairs(events@, true), ga), groups_strings(candidate_pairs(events@, false), gr)]
                groups_strings(candidate_pairs(events@, true), ga) && groups_strings(candidate_pairs(events@, false), gr)
                    && ascending_clients(ga) && ascending_clients(gr)
                    && final(self).events() == old(self).events() + candidate_events(ga, true) + candidate_events(gr, false),
    {
        let mut added: Vec<(ClientId, String)> = Vec::new();
        let mut removed: Vec<(ClientId, String)> = Vec::new();
        let mut i: usize = 0;
        while i < events.len()
            invariant
                i <= events@.len(),
                self.inv(),
                self.tun_ip_config == old(self).tun_ip_config,
                self.buffered_events@ == old(self).buffered_events@,
                added@ == candidate_pairs(events@.take(i as int), true),
                removed@ == candidate_pairs(events@.take(i as int), false),
                forall|id: ClientId| (exists|j: int| 0 <= j < i && ends_connection(#[trigger] events@[j], id))
                    ==> !self.has_peer(id),
                forall|id: ClientId| (forall|j: int| 0 <= j < i ==> !ends_connection(#[trigger] events@[j], id))
                    ==> self.has_peer(id) == old(self).has_peer(id),
            decreases events.len() - i,
        {
            let ghost g0 = *self;
            match &events[i] {
                NodeEvent::ConnectionFailed(id) | NodeEvent::ConnectionClosed(id) => {
                    self.peers.remove(*id);
                },
                NodeEvent::NewIceCandidate { connection, candidate } => {
                    added.push((*connection, candidate.clone()));
                },
                NodeEvent::InvalidateIceCandidate { connection, candidate } => {
                    removed.push((*connection, candidate.clone()));
                },
                NodeEvent::ConnectionEstablished(_) => {},
            }
            proof {
                assert(events@.take(i + 1).drop_last() =~= events@.take(i as int));
                assert(events@.take(i + 1).last() == events@[i as int]);
                assert forall|id: ClientId| (exists|j: int| 0 <= j < i + 1 && ends_connection(#[trigger] events@[j], id))
                    implies !self.has_peer(id) by {
                    let j = choose|j: int| 0 <= j < i + 1 && ends_connection(#[trigger] events@[j], id);
                    if j < i {
                        assert(!g0.has_peer(id));
                    }
                }
                assert forall|id: ClientId| (forall|j: int| 0 <= j < i + 1 ==> !ends_connection(#[trigger] events@[j], id))
                    implies self.has_peer(id) == old(self).has_peer(id) by {
                    assert(!ends_connection(events@[i as int], id));
                    assert(forall|j: int| 0 <= j < i ==> !ends_connection(#[trigger] events@[j], id));
                }
            }
            i = i + 1;
        }
        let added_unsorted = group_strings(&added);
        let removed_unsorted = group_strings(&removed);
        let ghost au = added_unsorted@;
        let ghost ru = removed_unsorted@;
        let added_groups = sort_by_client(added_unsorted);
        let removed_groups = sort_by_client(removed_unsorted);
        proof {
            lemma_groups_reordered(added@, au, added_groups@);
            lemma_groups_reordered(removed@, ru, removed_groups@);
        }
        let ghost mid = *self;
        let ghost ga = added_groups@;
        let ghost gr = removed_groups@;
        proof {
            assert(events@.take(events@.len() as int) =~= events@);
        }
        self.queue_candidate_events(added_groups, true);
        self.queue_candidate_events(removed_groups, false);
        proof {
            assert(self.events() =~= old(self).events() + candidate_events(ga, true) + candidate_events(gr, false));
            assert(self.store() == mid.store());
            assert forall|id: ClientId| #[trigger] self.has_peer(id) == mid.has_peer(id) by {}
        }
    }

    fn queue_candidate_events(&mut self, groups: Vec<(ClientId, Vec<String>)>, added: bool)
        ensures
            final(self).store() == old(self).store(),
            final(self).tun_config() == old(self).tun_config(),
            final(self).next_check() == old(self).next_check(),
            final(self).events() == old(self).events() + candidate_events(groups@, added),
    {
        let ghost orig = groups@;
        let mut groups = groups;
        let n = groups.len();
        let mut k: usize = 0;
        while groups.len() > 0
            invariant
                k + groups@.len() == n,
                n == orig.len(),
                groups@ == orig.skip(k as int),
                self.peers == old(self).peers,
                self.tun_ip_config == old(self).tun_ip_config,
                self.next_expiry_resources_check == old(self).next_expiry_resources_check,
                self.buffered_events@ == old(self).buffered_events@ + candidate_events(orig.take(k as int), added),
            decreases groups.len(),
        {
            let ghost g = groups@[0];
            let (conn_id, candidates) = groups.remove(0);
            if added {
                self.buffered_events.push(GatewayEvent::AddedIceCandidates { conn_id, candidates });
            } else {
                self.buffered_events.push(GatewayEvent::RemovedIceCandidates { conn_id, candidates });
            }
            proof {
                assert(orig.take(k + 1) =~= orig.take(k as int).push(g));
                assert(candidate_events(orig.take(k + 1), added) =~= candidate_events(orig.take(k as int), added).push(
                    candidate_event(g, added),
                ));
                assert(groups@ =~= orig.skip(k + 1));
            }
            k = k + 1;
        }
        assert(orig.take(n as int) =~= orig);
    }

    /// Applies the state that the control plane sends on (re)connection: the gateway's tunnel
    /// addresses, and the authorisations. Clients that are not listed are forgotten; each
    /// listed client keeps exactly its listed resources, and each authorisation's expiry is
    /// set (the last one listed for a client and resource counts).
    pub fn apply_init(&mut self, interface: IpConfig, authorizations: &Vec<Authorization>)
        requires
            old(self).inv(),
        ensures
            final(self).inv(),
            final(self).tun_config() == Some(interface),
            forall|id: ClientId| #[trigger] final(self).has_peer(id) == (old(self).has_peer(id)
                && exists|k: int| 0 <= k < authorizations@.len() && (#[trigger] authorizations@[k]).client_id == id),
            forall|id: ClientId, rid: ResourceId| final(self).has_peer(id) ==> (#[trigger] final(self).peer(id).has_resource(rid)
                <==> old(self).peer(id).has_resource(rid) && exists|k: int| 0 <= k < authorizations@.len()
                    && (#[trigger] authorizations@[k]).client_id == id && authorizations@[k].resource_id == rid),
            forall|k: int| 0 <= k < authorizations@.len() && last_listed(authorizations@, k, authorizations@.len() as int)
                && final(self).has_peer((#[trigger] authorizations@[k]).client_id)
                && final(self).peer(authorizations@[k].client_id).has_resource(authorizations@[k].resource_id)
                ==> res_expires_at(final(self).peer(authorizations@[k].client_id).resource(authorizations@[k].resource_id))
                    == Some(authorizations@[k].expires_at),
    {
        self.update_tun_device(interface);
        let mut pairs: Vec<(ClientId, ResourceId)> = Vec::new();
        let mut i: usize = 0;
        while i < authorizations.len()
            invariant
                i <= authorizations@.len(),
                pairs@.len() == i,
                forall|k: int| 0 <= k < i ==> #[trigger] pairs@[k] == (authorizations@[k].client_id, authorizations@[k].resource_id),
            decreases authorizations.len() - i,
        {
            pairs.push((authorizations[i].client_id, authorizations[i].resource_id));
            i = i + 1;
        }
        let groups = group_ids(&pairs);
        let ghost g0 = *self;
        self.retain_authorizations(&groups);
        let ghost a = authorizations@;
        proof {
            assert forall|id: ClientId| #[trigger] listed(groups@, id) == exists|k: int| 0 <= k < a.len()
                && (#[trigger] a[k]).client_id == id by {
                if listed(groups@, id) {
                    let g = choose|g: int| 0 <= g < groups@.len() && (#[trigger] groups@[g]).0 == id;
                    let r0 = groups@[g].1@[0];
                    assert(groups@[g].1@.contains(r0));
                    assert(pairs@.contains((id, r0)));
                    let k = choose|k: int| 0 <= k < pairs@.len() && pairs@[k] == (id, r0);
                    assert(a[k].client_id == id);
                }
                if exists|k: int| 0 <= k < a.len() && (#[trigger] a[k]).client_id == id {
                    let k = choose|k: int| 0 <= k < a.len() && (#[trigger] a[k]).client_id == id;
                    assert(pairs@[k] == (id, a[k].resource_id));
                    assert(pairs@.contains((id, a[k].resource_id)));
                }
            }
            assert forall|id: ClientId, rid: ResourceId| listed(groups@, id) implies
                (#[trigger] lists_contain(groups@, id, rid) <==> exists|k: int| 0 <= k < a.len()
                    && (#[trigger] a[k]).client_id == id && a[k].resource_id == rid) by {
                let g = choose|g: int| 0 <= g < groups@.len() && (#[trigger] groups@[g]).0 == id;
                if lists_contain(groups@, id, rid) {
                    assert(groups@[g].1@.contains(rid));
                    assert(pairs@.contains((id, rid)));
                    let k = choose|k: int| 0 <= k < pairs@.len() && pairs@[k] == (id, rid);
                    assert(a[k].client_id == id && a[k].resource_id == rid);
                }
                if exists|k: int| 0 <= k < a.len() && (#[trigger] a[k]).client_id == id && a[k].resource_id == rid {
                    let k = choose|k: int| 0 <= k < a.len() && (#[trigger] a[k]).client_id == id && a[k].resource_id == rid;
                    assert(pairs@[k] == (id, rid));
                    assert(pairs@.contains((id, rid)));
                    assert forall|g2: int| 0 <= g2 < groups@.len() && (#[trigger] groups@[g2]).0 == id
                        implies groups@[g2].1@.contains(rid) by {
                        let g3 = choose|g3: int| 0 <= g3 < groups@.len() && (#[trigger] groups@[g3]).0 == id
                            && groups@[g3].1@.contains(rid);
                        if g3 != g2 {
                            assert(groups@[g3].0 != groups@[g2].0);
                        }
                    }
                }
            }
        }
        let ghost r0 = *self;
        let mut j: usize = 0;
        while j < authorizations.len()
            invariant
                j <= a.len(),
                a == authorizations@,
                self.inv(),
                self.tun_config() == Some(interface),
                forall|id: ClientId| #[trigger] self.has_peer(id) == r0.has_peer(id),
                forall|id: ClientId, rid: ResourceId| self.has_peer(id) ==> (#[trigger] self.peer(id).has_resource(rid)
                    == r0.peer(id).has_resource(rid)),
                forall|k: int| 0 <= k < j && last_listed(a, k, j as int)
                    && self.has_peer((#[trigger] a[k]).client_id)
                    && self.peer(a[k].client_id).has_resource(a[k].resource_id)
                    ==> res_expires_at(self.peer(a[k].client_id).resource(a[k].resource_id)) == Some(a[k].expires_at),
            decreases authorizations.len() - j,
        {
            let au = authorizations[j];
            let ghost s0 = *self;
            let _ = self.update_access_authorization_expiry(au.client_id, au.resource_id, au.expires_at);
            proof {
                assert forall|id: ClientId, rid: ResourceId| self.has_peer(id) implies (#[trigger] self.peer(id).has_resource(rid)
                    == r0.peer(id).has_resource(rid)) by {
                    if id == au.client_id {
                        assert(s0.peer(id).has_resource(rid) == self.peer(id).has_resource(rid));
                    } else {
                        assert(self.peer(id) == s0.peer(id));
                    }
                }
                assert forall|k: int| 0 <= k < j + 1 && last_listed(a, k, j + 1)
                    && self.has_peer((#[trigger] a[k]).client_id)
                    && self.peer(a[k].client_id).has_resource(a[k].resource_id)
                    implies res_expires_at(self.peer(a[k].client_id).resource(a[k].resource_id)) == Some(a[k].expires_at) by {
                    let c = a[k].client_id;
                    let rid = a[k].resource_id;
                    if k < j {
                        assert(last_listed(a, k, j as int));
                        if c != au.client_id {
                            assert(self.peer(c) == s0.peer(c));
                        } else {
                            assert(rid != au.resource_id);
                            assert(s0.peer(c).has_resource(rid));
                            assert(crate::client::same_except(s0.peer(c).resources(), self.peer(c).resources(), au.resource_id));
                        }
                    } else {
                        assert(s0.peer(c).has_resource(rid));
                    }
                }
            }
            j = j + 1;
        }
    }

    /// The legacy access request, once its domain (if any) was resolved: a failed
    /// resolution goes on with no addresses.
    pub fn allow_access_after_resolution(
        &mut self,
        client: ClientId,
        client_tun: IpConfig,
        expires_at: Option<Timestamp>,
        resource: ResourceDescription,
        domain: Option<(String, Vec<IpAddr>)>,
        resolved: Result<Vec<IpAddr>, ()>,
    ) -> (r: Result<(), AllowAccessError>)
        requires
            old(self).inv(),
            crate::resource::description_wf(resource),
        ensures
            final(self).inv(),
            (r == Err::<(), AllowAccessError>(AllowAccessError::TunNotConfigured)) <==> old(self).tun_config() is None,
            old(self).tun_config() is Some && domain is None ==> r is Ok,
            old(self).tun_config() is Some ==> final(self).has_peer(client)
                && final(self).peer(client).has_resource(resource.id_spec()),
            r is Ok && domain is Some ==> domain_listed(
                final(self).peer(client).resource(resource.id_spec())->Dns_domains@,
                domain->Some_0.0@,
                match resolved {
                    Ok(ips) => ips@,
                    Err(_) => Seq::empty(),
                },
            ),
    {
        let addresses = match resolved {
            Ok(a) => a,
            Err(()) => Vec::new(),
        };
        let entry = match domain {
            Some((name, proxy_ips)) => Some(DnsResourceNatEntry::new(name, proxy_ips, addresses)),
            None => None,
        };
        self.allow_access(client, client_tun, expires_at, resource, entry)
    }

    /// A connection request once its domain (if any) was resolved: access is granted as
    /// `allow_access` does, and where that fails the client is forgotten, so that it runs
    /// into a timeout. A failed resolution fails the request at once.
    pub fn accept_connection(
        &mut self,
        client: ClientId,
        client_tun: IpConfig,
        expires_at: Option<Timestamp>,
        resource: ResourceDescription,
        dns_resource_nat: Option<DnsResourceNatEntry>,
        resolved: Result<(), ()>,
    ) -> (r: Result<(), AllowAccessError>)
        requires
            old(self).inv(),
            crate::resource::description_wf(resource),
        ensures
            final(self).inv(),
            resolved is Err ==> r == Err::<(), AllowAccessError>(AllowAccessError::ResolutionFailed)
                && final(self).store() == old(self).store(),
            resolved is Ok ==> ((r == Err::<(), AllowAccessError>(AllowAccessError::TunNotConfigured))
                <==> old(self).tun_config() is None),
            resolved is Ok && old(self).tun_config() is Some && dns_resource_nat is None ==> r is Ok,
            r is Ok ==> final(self).has_peer(client) && final(self).peer(client).has_resource(resource.id_spec()),
            resolved is Ok && r is Err ==> !final(self).has_peer(client),
            forall|other: ClientId| other != client ==> #[trigger] final(self).has_peer(other) == old(self).has_peer(other),
    {
        if resolved.is_err() {
            return Err(AllowAccessError::ResolutionFailed);
        }
        let r = self.allow_access(client, client_tun, expires_at, resource, dns_resource_nat);
        if r.is_err() {
            self.cleanup_connection(client);
        }
        r
    }

    /// The next queued event, first in, first out.
    pub fn poll_event(&mut self) -> (r: Option<GatewayEvent>)
        ensures
            final(self).store() == old(self).store(),
            final(self).tun_config() == old(self).tun_config(),
            final(self).next_check() == old(self).next_check(),
            old(self).events().len() == 0 ==> r is None && final(self).events() == old(self).events(),
            old(self).events().len() > 0 ==> r == Some(old(self).events()[0])
                && final(self).events() == old(self).events().drop_first(),
    {
        if self.buffered_events.len() == 0 {
            None
        } else {
            let e = self.buffered_events.remove(0);
            assert(self.buffered_events@ =~= old(self).buffered_events@.drop_first());
            Some(e)
        }
    }
}

/// `b` is what `a` becomes when its expired authorisations are dropped and then its idle
/// NAT sessions evicted.
pub open spec fn swept(a: ClientOnGateway, b: ClientOnGateway, utc_now: Timestamp, now: u64) -> bool {
    exists|c: ClientOnGateway| expire_ok(a, c, utc_now) && #[trigger] timeout_ok(c, b, now)
}

pub open spec fn has_res_of(rs: Seq<crate::client::ResourceEntry>, id: ResourceId) -> bool {
    crate::client::has_res(rs, id)
}

/// A resource list is non-empty exactly when it holds some id.
proof fn lemma_nonempty(rs: Seq<crate::client::ResourceEntry>)
    ensures
        rs.len() > 0 <==> exists|id: ResourceId| #[trigger] has_res_of(rs, id),
{
    if rs.len() > 0 {
        assert(crate::client::has_res(rs, rs[0].0));
        assert(has_res_of(rs, rs[0].0));
    }
}

/// Some list names client `id`.
pub open spec fn listed(auth: Seq<(ClientId, Vec<ResourceId>)>, id: ClientId) -> bool {
    exists|k: int| 0 <= k < auth.len() && (#[trigger] auth[k]).0 == id
}

/// Every list of client `id` names `rid`.
pub open spec fn lists_contain(auth: Seq<(ClientId, Vec<ResourceId>)>, id: ClientId, rid: ResourceId) -> bool {
    forall|k: int| 0 <= k < auth.len() && (#[trigger] auth[k]).0 == id ==> auth[k].1@.contains(rid)
}

/// Among the first `end` authorisations, none after position `k` is for the same client and resource.
pub open spec fn last_listed(a: Seq<Authorization>, k: int, end: int) -> bool {
    forall|k2: int| k < k2 < end ==> (#[trigger] a[k2]).client_id != a[k].client_id || a[k2].resource_id != a[k].resource_id
}

fn is_listed(auth: &Vec<(ClientId, Vec<ResourceId>)>, id: ClientId) -> (r: bool)
    ensures
        r == listed(auth@, id),
{
    let mut k: usize = 0;
    while k < auth.len()
        invariant
            k <= auth@.len(),
            forall|m: int| 0 <= m < k ==> (#[trigger] auth@[m]).0 != id,
        decreases auth.len() - k,
    {
        if auth[k].0 == id {
            return true;
        }
        k = k + 1;
    }
    false
}

/// The action for a client's decision on an outbound packet.
pub open spec fn outbound_action(cid: ClientId, res: Result<TranslateOutboundResult, PacketError>) -> Result<NetworkAction, GatewayError> {
    match res {
        Ok(TranslateOutboundResult::Send(p)) => Ok(NetworkAction::WriteTun(p)),
        Ok(TranslateOutboundResult::DestinationUnreachable(x)) => Ok(NetworkAction::Reply(cid, x)),
        Ok(TranslateOutboundResult::Filtered(x)) => Ok(NetworkAction::Reply(cid, x)),
        Err(e) => Err(GatewayError::Packet(e)),
    }
}

/// The answer for a client's decision on an inbound packet.
pub open spec fn inbound_action(cid: ClientId, res: Result<Option<IpPacket>, PacketError>) -> Result<Option<(ClientId, IpPacket)>, PacketError> {
    match res {
        Ok(Some(p)) => Ok(Some((cid, p))),
        Ok(None) => Ok(None),
        Err(e) => Err(e),
    }
}

/// One interval after `now`, or the end of time where that does not fit.
pub open spec fn next_check_after(now: u64) -> u64 {
    if now <= u64::MAX - EXPIRE_RESOURCES_INTERVAL {
        (now + EXPIRE_RESOURCES_INTERVAL) as u64
    } else {
        u64::MAX
    }
}

/// Why a packet from a client was not handled.
#[derive(Clone, Copy, Debug, PartialEq, Eq, Structural, Hash)]
pub enum GatewayError {
    UnknownPeer(ClientId),
    Packet(PacketError),
}

/// Replacing the client at position `i` by `p` of the same id changes what that id names
/// and nothing else.
proof fn lemma_peer_of_update(orig: PeerStore, store: PeerStore, i: int, p: ClientOnGateway)
    requires
        orig.inv(),
        store.inv(),
        0 <= i < orig.peers().len(),
        store.peers() == orig.peers().update(i, p),
        p.id_spec() == orig.peers()[i].id_spec(),
    ensures
        peer_of(store.peers(), p.id_spec()) == p,
        forall|id: ClientId| id != p.id_spec() && orig.has_peer(id)
            ==> #[trigger] peer_of(store.peers(), id) == peer_of(orig.peers(), id),
{
    lemma_peer_of(store.peers(), i, store);
    assert forall|id: ClientId| id != p.id_spec() && orig.has_peer(id)
        implies #[trigger] peer_of(store.peers(), id) == peer_of(orig.peers(), id) by {
        let j = choose|j: int| 0 <= j < orig.peers().len() && (#[trigger] orig.peers()[j]).id_spec() == id;
        lemma_peer_of(orig.peers(), j, orig);
        assert(j != i);
        assert(store.peers()[j] == orig.peers()[j]);
        lemma_peer_of(store.peers(), j, store);
    }
}

/// A store whose clients all come from another names by each id the same client.
proof fn lemma_peer_of_subset(a: PeerStore, b: PeerStore, id: ClientId)
    requires
        a.inv(),
        b.inv(),
        forall|p: ClientOnGateway| #[trigger] b.peers().contains(p) ==> a.peers().contains(p),
        b.has_peer(id),
    ensures
        a.has_peer(id),
        peer_of(b.peers(), id) == peer_of(a.peers(), id),
{
    let j = choose|j: int| 0 <= j < b.peers().len() && (#[trigger] b.peers()[j]).id_spec() == id;
    lemma_peer_of(b.peers(), j, b);
    assert(b.peers().contains(b.peers()[j]));
    let k = choose|k: int| 0 <= k < a.peers().len() && a.peers()[k] == b.peers()[j];
    lemma_peer_of(a.peers(), k, a);
}

/// The client at position `i` of a store is the one its id names.
proof fn lemma_peer_of(ps: Seq<ClientOnGateway>, i: int, store: PeerStore)
    requires
        store.inv(),
        ps == store.peers(),
        0 <= i < ps.len(),
    ensures
        store.has_peer(ps[i].id_spec()),
        peer_of(ps, ps[i].id_spec()) == ps[i],
{
    let id = ps[i].id_spec();
    assert(ps[i].id_spec() == id);
    let c = choose|j: int| 0 <= j < ps.len() && (#[trigger] ps[j]).id_spec() == id;
    if c != i {
        assert(ps[c].id_spec() != ps[i].id_spec());
    }
}

} // verus!
