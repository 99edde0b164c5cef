//! Layer-4 filters and the engine compiled from a union of filter sets.
use vstd::prelude::*;

verus! {

/// An inclusive range of ports.
#[derive(Clone, Copy, Debug, PartialEq, Eq, Structural, Hash)]
pub struct PortRange {
    pub port_range_start: u16,
    pub port_range_end: u16,
}

/// One entry of an allow-list.
#[derive(Clone, Copy, Debug, PartialEq, Eq, Structural, Hash)]
pub enum Filter {
    Tcp(PortRange),
    Udp(PortRange),
    Icmp,
}

/// The layer-4 part of a packet that filters look at: the destination port, or the ICMP identifier.
#[derive(Clone, Copy, Debug, PartialEq, Eq, Structural, Hash)]
pub enum Protocol {
    Tcp(u16),
    Udp(u16),
    Icmp(u16),
}

/// A packet whose IP protocol number is neither TCP, UDP nor ICMP.
#[derive(Clone, Copy, Debug, PartialEq, Eq, Structural, Hash)]
pub struct UnsupportedProtocol(pub u8);

/// Why a filter engine denied a packet.
#[derive(Clone, Copy, Debug, PartialEq, Eq, Structural, Hash)]
pub enum Filtered {
    Tcp,
    Udp,
    Icmp,
    UnsupportedProtocol(u8),
}

pub open spec fn range_contains(r: PortRange, port: u16) -> bool {
    r.port_range_start <= port <= r.port_range_end
}

pub open spec fn filter_matches(f: Filter, p: Protocol) -> bool {
    match (f, p) {
        (Filter::Tcp(r), Protocol::Tcp(port)) => range_contains(r, port),
        (Filter::Udp(r), Protocol::Udp(port)) => range_contains(r, port),
        (Filter::Icmp, Protocol::Icmp(_)) => true,
        _ => false,
    }
}

/// A filter set lets `p` through: it is empty (allow-all), or one entry matches.
pub open spec fn filters_allow(fs: Seq<Filter>, p: Protocol) -> bool {
    fs.len() == 0 || exists|i: int| 0 <= i < fs.len() && #[trigger] filter_matches(fs[i], p)
}

/// Some set of `sets` lets `p` through.
pub open spec fn any_set_allows(sets: Seq<Seq<Filter>>, p: Protocol) -> bool {
    exists|i: int| 0 <= i < sets.len() && #[trigger] filters_allow(sets[i], p)
}

pub open spec fn port_in(ranges: Seq<PortRange>, port: u16) -> bool {
    exists|i: int| 0 <= i < ranges.len() && #[trigger] range_contains(ranges[i], port)
}

/// A compiled union of filter sets.
#[derive(Debug)]
pub struct FilterEngine {
    allow_all: bool,
    tcp: Vec<PortRange>,
    udp: Vec<PortRange>,
    icmp: bool,
}

impl FilterEngine {
    /// Whether the engine lets a packet of protocol `p` through.
    pub closed spec fn allows(self, p: Protocol) -> bool {
        self.allow_all || match p {
            Protocol::Tcp(port) => port_in(self.tcp@, port),
            Protocol::Udp(port) => port_in(self.udp@, port),
            Protocol::Icmp(_) => self.icmp,
        }
    }

    /// The engine that lets nothing through.
    pub fn deny_all() -> (r: FilterEngine)
        ensures
            forall|p: Protocol| !r.allows(p),
    {
        FilterEngine { allow_all: false, tcp: Vec::new(), udp: Vec::new(), icmp: false }
    }

    /// The engine that lets everything through.
    pub fn permit_all() -> (r: FilterEngine)
        ensures
            forall|p: Protocol| r.allows(p),
    {
        FilterEngine { allow_all: true, tcp: Vec::new(), udp: Vec::new(), icmp: false }
    }

    /// Adds one filter set to the union.
    pub fn add_filters(&mut self, fs: &Vec<Filter>)
        ensures
            forall|p: Protocol| #[trigger]
                final(self).allows(p) == (old(self).allows(p) || filters_allow(fs@, p)),
    {
        if fs.len() == 0 {
            self.allow_all = true;
            return;
        }
        let ghost start = *self;
        let mut i: usize = 0;
        while i < fs.len()
            invariant
                i <= fs.len(),
                self.allow_all == start.allow_all,
                forall|p: Protocol| #[trigger]
                    self.allows(p) == (start.allows(p) || exists|j: int|
                        0 <= j < i && #[trigger] filter_matches(fs@[j], p)),
            decreases fs.len() - i,
        {
            let ghost before = *self;
            match fs[i] {
                Filter::Tcp(r) => {
                    self.tcp.push(r);
                    proof { lemma_port_in_push(before.tcp@, r); }
                },
                Filter::Udp(r) => {
                    self.udp.push(r);
                    proof { lemma_port_in_push(before.udp@, r); }
                },
                Filter::Icmp => {
                    self.icmp = true;
                },
            }
            assert(forall|p: Protocol| #[trigger] self.allows(p)
                == (before.allows(p) || filter_matches(fs@[i as int], p)));
            proof {
                assert forall|p: Protocol| #[trigger]
                    self.allows(p) == (start.allows(p) || exists|j: int|
                        0 <= j < i + 1 && #[trigger] filter_matches(fs@[j], p)) by {
                    assert(before.allows(p) == (start.allows(p) || exists|j: int|
                        0 <= j < i && #[trigger] filter_matches(fs@[j], p)));
                    if exists|j: int| 0 <= j < i + 1 && #[trigger] filter_matches(fs@[j], p) {
                        let j = choose|j: int| 0 <= j < i + 1 && #[trigger] filter_matches(fs@[j], p);
                        if j < i {
                            assert(before.allows(p));
                        }
                    }
                }
            }
            i = i + 1;
        }
    }

    /// Compiles a union of filter sets. Any empty set makes the engine allow-all.
    pub fn with_filters(sets: &Vec<Vec<Filter>>) -> (r: FilterEngine)
        ensures
            forall|p: Protocol| #[trigger] r.allows(p) == any_set_allows(sets@.map_values(|s: Vec<Filter>| s@), p),
    {
        let ghost views = sets@.map_values(|s: Vec<Filter>| s@);
        let mut e = FilterEngine::deny_all();
        let mut i: usize = 0;
        while i < sets.len()
            invariant
                i <= sets.len(),
                views == sets@.map_values(|s: Vec<Filter>| s@),
                forall|p: Protocol| #[trigger] e.allows(p) == any_set_allows(views.take(i as int), p),
            decreases sets.len() - i,
        {
            e.add_filters(&sets[i]);
            proof {
                assert forall|p: Protocol| #[trigger] e.allows(p) == any_set_allows(views.take(i + 1), p) by {
                    let t = views.take(i + 1);
                    assert(t[i as int] == views[i as int]);
                    if any_set_allows(views.take(i as int), p) {
                        let j = choose|j: int| 0 <= j < i && #[trigger] filters_allow(views.take(i as int)[j], p);
                        assert(t[j] == views.take(i as int)[j]);
                    }
                    if any_set_allows(t, p) {
                        let j = choose|j: int| 0 <= j < i + 1 && #[trigger] filters_allow(t[j], p);
                        if j < i {
                            assert(t[j] == views.take(i as int)[j]);
                        }
                    }
                }
            }
            i = i + 1;
        }
        assert(views.take(sets.len() as int) =~= views);
        e
    }

    /// Decides a packet: `Ok` where the engine allows its protocol, else why not.
    pub fn apply(&self, protocol: Result<Protocol, UnsupportedProtocol>) -> (r: Result<(), Filtered>)
        ensures
            match protocol {
                Ok(p) => match r {
                    Ok(()) => self.allows(p),
                    Err(e) => !self.allows(p) && e == match p {
                        Protocol::Tcp(_) => Filtered::Tcp,
                        Protocol::Udp(_) => Filtered::Udp,
                        Protocol::Icmp(_) => Filtered::Icmp,
                    },
                },
                Err(UnsupportedProtocol(n)) => r == Err::<(), Filtered>(Filtered::UnsupportedProtocol(n)),
            },
    {
        match protocol {
            Err(UnsupportedProtocol(n)) => Err(Filtered::UnsupportedProtocol(n)),
            Ok(p) => {
                if self.allow_all {
                    return Ok(());
                }
                match p {
                    Protocol::Tcp(port) => {
                        if ranges_contain(&self.tcp, port) { Ok(()) } else { Err(Filtered::Tcp) }
                    },
                    Protocol::Udp(port) => {
                        if ranges_contain(&self.udp, port) { Ok(()) } else { Err(Filtered::Udp) }
                    },
                    Protocol::Icmp(_) => {
                        if self.icmp { Ok(()) } else { Err(Filtered::Icmp) }
                    },
                }
            },
        }
    }
}

proof fn lemma_port_in_push(s: Seq<PortRange>, r: PortRange)
    ensures
        forall|port: u16| #[trigger] port_in(s.push(r), port) == (port_in(s, port) || range_contains(r, port)),
{
    assert forall|port: u16| #[trigger] port_in(s.push(r), port) == (port_in(s, port) || range_contains(r, port)) by {
        let t = s.push(r);
        if port_in(s, port) {
            let i = choose|i: int| 0 <= i < s.len() && #[trigger] range_contains(s[i], port);
            assert(t[i] == s[i]);
        }
        if range_contains(r, port) {
            assert(t[s.len() as int] == r);
        }
        if port_in(t, port) {
            let i = choose|i: int| 0 <= i < t.len() && #[trigger] range_contains(t[i], port);
            if i < s.len() {
                assert(t[i] == s[i]);
            }
        }
    }
}

fn ranges_contain(ranges: &Vec<PortRange>, port: u16) -> (r: bool)
    ensures
        r == port_in(ranges@, port),
{
    let mut i: usize = 0;
    while i < ranges.len()
        invariant
            i <= ranges.len(),
            forall|j: int| 0 <= j < i ==> !range_contains(#[trigger] ranges@[j], port),
        decreases ranges.len() - i,
    {
        if ranges[i].port_range_start <= port && port <= ranges[i].port_range_end {
            assert(range_contains(ranges@[i as int], port));
            return true;
        }
        i = i + 1;
    }
    false
}

} // verus!
