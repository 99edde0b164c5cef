//! The longest-prefix index from networks to filter engines, kept in an
//! `ip_network_table::IpNetworkTable`.
use crate::filter::FilterEngine;
use crate::net::{IpAddr, IpNetwork};
use ip_network_table::IpNetworkTable;
use vstd::prelude::*;

verus! {

#[verifier::external_type_specification]
#[verifier::external_body]
#[verifier::reject_recursive_types(T)]
pub struct ExIpNetworkTable<T>(IpNetworkTable<T>);

/// The index from networks to the filter engine that applies there.
pub type FilterTable = IpNetworkTable<FilterEngine>;

/// The entries of a table, by network.
pub uninterp spec fn table_entries(t: FilterTable) -> Map<IpNetwork, FilterEngine>;

/// `net` is the longest network among the table's keys that contains `ip`.
pub open spec fn is_longest_match(entries: Map<IpNetwork, FilterEngine>, ip: IpAddr, net: IpNetwork) -> bool {
    &&& entries.contains_key(net)
    &&& net.contains_spec(ip)
    &&& forall|m: IpNetwork| #[trigger] entries.contains_key(m) && m.contains_spec(ip) ==> m.prefix <= net.prefix
}

/// What a longest-prefix lookup of `ip` returns.
pub open spec fn longest_match_ok(
    entries: Map<IpNetwork, FilterEngine>,
    ip: IpAddr,
    r: Option<(IpNetwork, &FilterEngine)>,
) -> bool {
    match r {
        None => forall|m: IpNetwork| #[trigger] entries.contains_key(m) ==> !m.contains_spec(ip),
        Some((net, e)) => is_longest_match(entries, ip, net) && *e == entries[net],
    }
}

/// Relies on `IpNetworkTable::new`: a table without entries.
#[verifier::external_body]
pub fn table_new() -> (r: FilterTable)
    ensures
        table_entries(r) =~= Map::empty(),
{
    IpNetworkTable::new()
}

/// Relies on `IpNetworkTable::insert`: the entry of `net` becomes `engine`, the others stay.
/// `Ipv4Network::new` and `Ipv6Network::new` accept every well-formed network.
#[verifier::external_body]
pub fn table_insert(t: &mut FilterTable, net: IpNetwork, engine: FilterEngine)
    requires
        net.wf(),
    ensures
        table_entries(*final(t)) == table_entries(*old(t)).insert(net, engine),
{
    match net.addr {
        IpAddr::V4(a) => t.insert(ip_network::Ipv4Network::new(a.into(), net.prefix).unwrap(), engine),
        IpAddr::V6(a) => t.insert(ip_network::Ipv6Network::new(a.into(), net.prefix).unwrap(), engine),
    };
}

/// Relies on `IpNetworkTable::longest_match_ipv4`: the entry of the longest network that holds the address.
#[verifier::external_body]
fn table_longest_match_v4(t: &FilterTable, a: u32) -> (r: Option<(IpNetwork, &FilterEngine)>)
    ensures
        longest_match_ok(table_entries(*t), IpAddr::V4(a), r),
{
    t.longest_match_ipv4(a.into()).map(
        |(n, e)| (IpNetwork { addr: IpAddr::V4(n.network_address().into()), prefix: n.netmask() }, e),
    )
}

/// Relies on `IpNetworkTable::longest_match_ipv6`: the entry of the longest network that holds the address.
#[verifier::external_body]
fn table_longest_match_v6(t: &FilterTable, a: u128) -> (r: Option<(IpNetwork, &FilterEngine)>)
    ensures
        longest_match_ok(table_entries(*t), IpAddr::V6(a), r),
{
    t.longest_match_ipv6(a.into()).map(
        |(n, e)| (IpNetwork { addr: IpAddr::V6(n.network_address().into()), prefix: n.netmask() }, e),
    )
}

/// The entry of the longest network in the table that holds `ip`.
pub fn table_longest_match(t: &FilterTable, ip: IpAddr) -> (r: Option<(IpNetwork, &FilterEngine)>)
    ensures
        longest_match_ok(table_entries(*t), ip, r),
{
    match ip {
        IpAddr::V4(a) => table_longest_match_v4(t, a),
        IpAddr::V6(a) => table_longest_match_v6(t, a),
    }
}

} // verus!
