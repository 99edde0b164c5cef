//! Resources that a client is authorised to reach, as the gateway keeps them.
use crate::filter::Filter;
use crate::net::{IpAddr, IpNetwork};
use vstd::prelude::*;

verus! {

/// Opaque 128-bit identifier of a resource.
#[derive(Clone, Copy, Debug, PartialEq, Eq, Structural, Hash, PartialOrd, Ord)]
pub struct ResourceId(pub u128);

/// Opaque 128-bit identifier of a client.
#[derive(Clone, Copy, Debug, PartialEq, Eq, Structural, Hash, PartialOrd, Ord)]
pub struct ClientId(pub u128);

/// Wall-clock time in milliseconds since the Unix epoch.
pub type Timestamp = i64;

#[derive(Debug)]
pub struct ResourceDescriptionCidr {
    pub id: ResourceId,
    pub address: IpNetwork,
    pub name: String,
    pub filters: Vec<Filter>,
}

#[derive(Debug)]
pub struct ResourceDescriptionDns {
    pub id: ResourceId,
    /// The address pattern: a name, `*.name` or `?.name`.
    pub address: String,
    pub name: String,
    pub filters: Vec<Filter>,
}

#[derive(Debug)]
pub struct ResourceDescriptionInternet {
    pub id: ResourceId,
}

/// A resource as the control plane describes it.
#[derive(Debug)]
pub enum ResourceDescription {
    Dns(ResourceDescriptionDns),
    Cidr(ResourceDescriptionCidr),
    Internet(ResourceDescriptionInternet),
}

impl ResourceDescription {
    pub open spec fn id_spec(&self) -> ResourceId {
        match self {
            ResourceDescription::Dns(r) => r.id,
            ResourceDescription::Cidr(r) => r.id,
            ResourceDescription::Internet(r) => r.id,
        }
    }

    pub fn id(&self) -> (r: ResourceId)
        ensures
            r == self.id_spec(),
    {
        match self {
            ResourceDescription::Dns(r) => r.id,
            ResourceDescription::Cidr(r) => r.id,
            ResourceDescription::Internet(r) => r.id,
        }
    }
}

/// The addresses that one resolved domain of a DNS resource stands for.
#[derive(Debug)]
pub struct DomainIps {
    pub name: String,
    pub ips: Vec<IpAddr>,
}

/// A resource that a client may reach, with the expiry of the client's authorisation.
#[derive(Debug)]
pub enum ResourceOnGateway {
    Cidr { network: IpNetwork, filters: Vec<Filter>, expires_at: Option<Timestamp> },
    Dns { address: String, domains: Vec<DomainIps>, filters: Vec<Filter>, expires_at: Option<Timestamp> },
    Internet { expires_at: Option<Timestamp> },
}

pub open spec fn default_route_v4() -> IpNetwork {
    IpNetwork { addr: IpAddr::V4(0), prefix: 0 }
}

pub open spec fn default_route_v6() -> IpNetwork {
    IpNetwork { addr: IpAddr::V6(0), prefix: 0 }
}

/// The filters that a resource applies; an Internet resource has none, so it allows all.
pub open spec fn res_filters(r: ResourceOnGateway) -> Seq<Filter> {
    match r {
        ResourceOnGateway::Cidr { filters, .. } => filters@,
        ResourceOnGateway::Dns { filters, .. } => filters@,
        ResourceOnGateway::Internet { .. } => Seq::empty(),
    }
}

pub open spec fn res_expires_at(r: ResourceOnGateway) -> Option<Timestamp> {
    match r {
        ResourceOnGateway::Cidr { expires_at, .. } => expires_at,
        ResourceOnGateway::Dns { expires_at, .. } => expires_at,
        ResourceOnGateway::Internet { expires_at } => expires_at,
    }
}

/// The authorisation is still valid at `now`.
pub open spec fn res_is_allowed(r: ResourceOnGateway, now: Timestamp) -> bool {
    match res_expires_at(r) {
        None => true,
        Some(t) => t > now,
    }
}

/// `m` is one of the networks that the resource stands for: its CIDR, a resolved address
/// of one of its domains, or a default route.
pub open spec fn exposes(r: ResourceOnGateway, m: IpNetwork) -> bool {
    match r {
        ResourceOnGateway::Cidr { network, .. } => m == network,
        ResourceOnGateway::Dns { domains, .. } => exists|d: int, k: int|
            0 <= d < domains@.len() && 0 <= k < domains@[d].ips@.len()
                && m == IpNetwork::host_spec(#[trigger] domains@[d].ips@[k]),
        ResourceOnGateway::Internet { .. } => m == default_route_v4() || m == default_route_v6(),
    }
}

/// Some network of the resource covers `n`.
pub open spec fn res_covers(r: ResourceOnGateway, n: IpNetwork) -> bool {
    exists|m: IpNetwork| #[trigger] exposes(r, m) && m.covers_spec(n)
}

/// `r` is the resource that a description and an expiry give rise to: a DNS resource
/// starts without resolved domains.
pub open spec fn fresh_from(r: ResourceOnGateway, desc: ResourceDescription, expires_at: Option<Timestamp>) -> bool {
    &&& res_expires_at(r) == expires_at
    &&& match desc {
        ResourceDescription::Dns(d) => r matches ResourceOnGateway::Dns { address, domains, filters, .. }
            && address@ == d.address@ && domains@.len() == 0 && filters@ == d.filters@,
        ResourceDescription::Cidr(c) => r == (ResourceOnGateway::Cidr { network: c.address, filters: c.filters, expires_at }),
        ResourceDescription::Internet(_) => r == (ResourceOnGateway::Internet { expires_at }),
    }
}

/// `new` keeps everything of `old` but its filters, which it takes from a description of
/// the same kind; a description of another kind changes nothing.
pub open spec fn updated_from(new: ResourceOnGateway, old: ResourceOnGateway, desc: ResourceDescription) -> bool {
    &&& res_expires_at(new) == res_expires_at(old)
    &&& forall|m: IpNetwork| #[trigger] exposes(new, m) == exposes(old, m)
    &&& (old is Cidr) == (new is Cidr)
    &&& (old is Dns) == (new is Dns)
    &&& (old is Internet) == (new is Internet)
    &&& match (old, desc) {
        (ResourceOnGateway::Cidr { .. }, ResourceDescription::Cidr(c)) => res_filters(new) == c.filters@,
        (ResourceOnGateway::Dns { .. }, ResourceDescription::Dns(d)) => res_filters(new) == d.filters@,
        _ => res_filters(new) == res_filters(old),
    }
    &&& match new {
        ResourceOnGateway::Dns { address, domains, .. } => old matches ResourceOnGateway::Dns { address: a0, domains: d0, .. }
            && address@ == a0@ && domains@ == d0@,
        ResourceOnGateway::Cidr { network, .. } => old matches ResourceOnGateway::Cidr { network: n0, .. } && network == n0,
        _ => true,
    }
}

/// The network of a CIDR description is well-formed.
pub open spec fn description_wf(desc: ResourceDescription) -> bool {
    match desc {
        ResourceDescription::Cidr(c) => c.address.wf(),
        _ => true,
    }
}

impl ResourceOnGateway {
    pub fn new(resource: ResourceDescription, expires_at: Option<Timestamp>) -> (r: ResourceOnGateway)
        ensures
            fresh_from(r, resource, expires_at),
    {
        match resource {
            ResourceDescription::Dns(d) => ResourceOnGateway::Dns {
                address: d.address,
                domains: Vec::new(),
                filters: d.filters,
                expires_at,
            },
            ResourceDescription::Cidr(c) => ResourceOnGateway::Cidr {
                network: c.address,
                filters: c.filters,
                expires_at,
            },
            ResourceDescription::Internet(_) => ResourceOnGateway::Internet { expires_at },
        }
    }

    /// Takes the filters of a newer description of the same kind; a description of another
    /// kind changes nothing.
    pub fn update(&mut self, resource: &ResourceDescription)
        ensures
            updated_from(*final(self), *old(self), *resource),
    {
        match (self, resource) {
            (ResourceOnGateway::Cidr { filters, .. }, ResourceDescription::Cidr(new)) => {
                *filters = copy_filters(&new.filters);
            },
            (ResourceOnGateway::Dns { filters, .. }, ResourceDescription::Dns(new)) => {
                *filters = copy_filters(&new.filters);
            },
            _ => {},
        }
    }

    pub fn filters(&self) -> (r: &Vec<Filter>)
        requires
            !(*self is Internet),
        ensures
            r@ == res_filters(*self),
    {
        match self {
            ResourceOnGateway::Cidr { filters, .. } => filters,
            ResourceOnGateway::Dns { filters, .. } => filters,
            ResourceOnGateway::Internet { .. } => vstd::pervasive::unreached(),
        }
    }

    pub fn expires_at(&self) -> (r: Option<Timestamp>)
        ensures
            r == res_expires_at(*self),
    {
        match self {
            ResourceOnGateway::Cidr { expires_at, .. } => *expires_at,
            ResourceOnGateway::Dns { expires_at, .. } => *expires_at,
            ResourceOnGateway::Internet { expires_at } => *expires_at,
        }
    }

    pub fn is_allowed(&self, now: Timestamp) -> (r: bool)
        ensures
            r == res_is_allowed(*self, now),
    {
        match self.expires_at() {
            None => true,
            Some(t) => t > now,
        }
    }

    pub fn set_expiry(&mut self, t: Timestamp)
        ensures
            res_expires_at(*final(self)) == Some(t),
            res_filters(*final(self)) == res_filters(*old(self)),
            forall|m: IpNetwork| #[trigger] exposes(*final(self), m) == exposes(*old(self), m),
            (*old(self) is Cidr) == (*final(self) is Cidr),
            (*old(self) is Dns) == (*final(self) is Dns),
            (*old(self) is Internet) == (*final(self) is Internet),
            match *final(self) {
                ResourceOnGateway::Dns { address, domains, .. } => *old(self) matches ResourceOnGateway::Dns { address: a0, domains: d0, .. }
                    && address@ == a0@ && domains@ == d0@,
                ResourceOnGateway::Cidr { network, .. } => *old(self) matches ResourceOnGateway::Cidr { network: n0, .. } && network == n0,
                _ => true,
            },
    {
        match self {
            ResourceOnGateway::Cidr { expires_at, .. } => *expires_at = Some(t),
            ResourceOnGateway::Dns { expires_at, .. } => *expires_at = Some(t),
            ResourceOnGateway::Internet { expires_at } => *expires_at = Some(t),
        }
    }

    pub fn is_cidr(&self) -> (r: bool)
        ensures
            r == (*self is Cidr),
    {
        matches!(self, ResourceOnGateway::Cidr { .. })
    }

    pub fn is_dns(&self) -> (r: bool)
        ensures
            r == (*self is Dns),
    {
        matches!(self, ResourceOnGateway::Dns { .. })
    }

    pub fn is_internet_resource(&self) -> (r: bool)
        ensures
            r == (*self is Internet),
    {
        matches!(self, ResourceOnGateway::Internet { .. })
    }

    /// Records the addresses that a domain of a DNS resource resolved to, replacing those
    /// recorded before for the same name.
    pub fn set_domain(&mut self, name: String, ips: Vec<IpAddr>)
        requires
            *old(self) is Dns,
        ensures
            *final(self) is Dns,
            final(self)->Dns_address@ == old(self)->Dns_address@,
            res_filters(*final(self)) == res_filters(*old(self)),
            res_expires_at(*final(self)) == res_expires_at(*old(self)),
            domain_listed(final(self)->Dns_domains@, name@, ips@),
    {
        match self {
            ResourceOnGateway::Dns { domains, .. } => upsert_domain(domains, name, ips),
            _ => vstd::pervasive::unreached(),
        }
    }

    /// Whether some network of this resource covers `n`.
    pub fn covers(&self, n: &IpNetwork) -> (r: bool)
        requires
            self.networks_wf(),
        ensures
            r == res_covers(*self, *n),
    {
        match self {
            ResourceOnGateway::Cidr { network, .. } => {
                let r = network.covers(n);
                proof {
                    if r {
                        assert(exposes(*self, *network));
                    }
                }
                r
            },
            ResourceOnGateway::Internet { .. } => {
                let v4 = IpNetwork { addr: IpAddr::V4(0), prefix: 0 };
                let v6 = IpNetwork { addr: IpAddr::V6(0), prefix: 0 };
                let r = v4.covers(n) || v6.covers(n);
                proof {
                    if r {
                        if v4.covers_spec(*n) {
                            assert(exposes(*self, v4));
                        } else {
                            assert(exposes(*self, v6));
                        }
                    }
                }
                r
            },
            ResourceOnGateway::Dns { domains, .. } => {
                let r = domains_cover(domains, n);
                proof {
                    if r {
                        let (d2, k2) = choose|d2: int, k2: int|
                            0 <= d2 < domains@.len() && 0 <= k2 < domains@[d2].ips@.len()
                                && IpNetwork::host_spec(#[trigger] domains@[d2].ips@[k2]).covers_spec(*n);
                        assert(exposes(*self, IpNetwork::host_spec(domains@[d2].ips@[k2])));
                    } else {
                        assert forall|m: IpNetwork| #[trigger] exposes(*self, m) implies !m.covers_spec(*n) by {
                            let (d2, k2) = choose|d2: int, k2: int|
                                0 <= d2 < domains@.len() && 0 <= k2 < domains@[d2].ips@.len()
                                    && m == IpNetwork::host_spec(#[trigger] domains@[d2].ips@[k2]);
                        }
                    }
                }
                r
            },
        }
    }

    /// The resource's own network is well-formed.
    pub open spec fn networks_wf(self) -> bool {
        match self {
            ResourceOnGateway::Cidr { network, .. } => network.wf(),
            _ => true,
        }
    }
}

/// Whether the single-address network of some resolved address covers `n`.
fn domains_cover(domains: &Vec<DomainIps>, n: &IpNetwork) -> (r: bool)
    ensures
        r == exists|d: int, k: int| 0 <= d < domains@.len() && 0 <= k < domains@[d].ips@.len()
            && IpNetwork::host_spec(#[trigger] domains@[d].ips@[k]).covers_spec(*n),
{
    let mut d: usize = 0;
    while d < domains.len()
        invariant
            d <= domains@.len(),
            forall|d2: int, k: int| 0 <= d2 < d && 0 <= k < domains@[d2].ips@.len()
                ==> !IpNetwork::host_spec(#[trigger] domains@[d2].ips@[k]).covers_spec(*n),
        decreases domains.len() - d,
    {
        let ips = &domains[d].ips;
        let mut k: usize = 0;
        while k < ips.len()
            invariant
                d < domains@.len(),
                ips@ == domains@[d as int].ips@,
                k <= ips@.len(),
                forall|d2: int, k2: int| 0 <= d2 < d && 0 <= k2 < domains@[d2].ips@.len()
                    ==> !IpNetwork::host_spec(#[trigger] domains@[d2].ips@[k2]).covers_spec(*n),
                forall|k2: int| 0 <= k2 < k ==> !IpNetwork::host_spec(#[trigger] ips@[k2]).covers_spec(*n),
            decreases ips.len() - k,
        {
            let h = IpNetwork::host(ips[k]);
            if h.covers(n) {
                assert(IpNetwork::host_spec(domains@[d as int].ips@[k as int]).covers_spec(*n));
                return true;
            }
            k = k + 1;
        }
        d = d + 1;
    }
    false
}

/// The list records exactly `ips` for the domain `name`.
pub open spec fn domain_listed(ds: Seq<DomainIps>, name: Seq<char>, ips: Seq<IpAddr>) -> bool {
    exists|d: int| 0 <= d < ds.len() && (#[trigger] ds[d]).name@ == name && ds[d].ips@ == ips
}

fn upsert_domain(domains: &mut Vec<DomainIps>, name: String, ips: Vec<IpAddr>)
    ensures
        domain_listed(final(domains)@, name@, ips@),
{
    let ghost n = name@;
    let ghost v = ips@;
    let mut d: usize = 0;
    while d < domains.len()
        invariant
            d <= domains@.len(),
            n == name@,
            v == ips@,
        decreases domains.len() - d,
    {
        if domains[d].name == name {
            domains.remove(d);
            domains.insert(d, DomainIps { name, ips });
            assert(domains@[d as int].name@ == n && domains@[d as int].ips@ == v);
            return;
        }
        d = d + 1;
    }
    domains.push(DomainIps { name, ips });
    assert(domains@[domains@.len() - 1].name@ == n);
}

/// A copy of a filter list.
pub fn copy_filters(fs: &Vec<Filter>) -> (r: Vec<Filter>)
    ensures
        r@ == fs@,
{
    let mut out: Vec<Filter> = Vec::new();
    let mut i: usize = 0;
    while i < fs.len()
        invariant
            i <= fs@.len(),
            out@ == fs@.take(i as int),
        decreases fs.len() - i,
    {
        out.push(fs[i]);
        assert(fs@.take(i + 1) == fs@.take(i as int).push(fs@[i as int]));
        i = i + 1;
    }
    assert(fs@.take(fs@.len() as int) == fs@);
    out
}

} // verus!
