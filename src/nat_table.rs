//! Per-flow address translation for DNS resources: a client's flow to a proxy address is
//! carried to the resolved address from a session-unique port, and return traffic is mapped back.
use crate::net::{IpAddr, IpConfig};
use crate::packet::{IcmpError, IpPacket, ProtocolKind, QuotedHeader, Transport};
use vstd::prelude::*;

verus! {

/// Idle time after which a TCP session is evicted, in milliseconds.
pub const TCP_TTL: u64 = 7_200_000;

/// Idle time after which a UDP session is evicted, in milliseconds.
pub const UDP_TTL: u64 = 60_000;

/// Idle time after which an ICMP session is evicted, in milliseconds.
pub const ICMP_TTL: u64 = 10_000;

pub open spec fn ttl(kind: ProtocolKind) -> u64 {
    match kind {
        ProtocolKind::Tcp => TCP_TTL,
        ProtocolKind::Udp => UDP_TTL,
        ProtocolKind::Icmp => ICMP_TTL,
    }
}

pub fn ttl_of(kind: ProtocolKind) -> (r: u64)
    ensures
        r == ttl(kind),
{
    match kind {
        ProtocolKind::Tcp => TCP_TTL,
        ProtocolKind::Udp => UDP_TTL,
        ProtocolKind::Icmp => ICMP_TTL,
    }
}

/// The outside end of a session: protocol, the port (or ICMP identifier) that the gateway
/// sends from, and the resolved address.
#[derive(Clone, Copy, Debug, PartialEq, Eq, Structural, Hash)]
pub struct OutsideKey {
    pub kind: ProtocolKind,
    pub port: u16,
    pub dst: IpAddr,
}

/// One translated flow.
#[derive(Clone, Copy, Debug, PartialEq, Eq, Structural, Hash)]
pub struct NatSession {
    pub kind: ProtocolKind,
    /// The client's source port, or its ICMP identifier.
    pub inside_port: u16,
    /// The proxy address that the client sent to.
    pub inside_dst: IpAddr,
    /// The source port, or ICMP identifier, that the gateway sends from.
    pub outside_port: u16,
    /// The resolved address that the gateway sends to.
    pub outside_dst: IpAddr,
    /// Steady-clock milliseconds of the last outbound packet of the flow.
    pub last_used: u64,
}

pub open spec fn outside_key(s: NatSession) -> OutsideKey {
    OutsideKey { kind: s.kind, port: s.outside_port, dst: s.outside_dst }
}

pub open spec fn same_inside(a: NatSession, b: NatSession) -> bool {
    a.kind == b.kind && a.inside_port == b.inside_port && a.inside_dst == b.inside_dst
        && a.outside_dst == b.outside_dst
}

/// Milliseconds since the session was last used; zero where the clock reads earlier.
pub open spec fn idle(s: NatSession, now: u64) -> nat {
    if now >= s.last_used {
        (now - s.last_used) as nat
    } else {
        0
    }
}

/// The session has been idle for longer than its protocol allows.
pub open spec fn is_stale(s: NatSession, now: u64) -> bool {
    idle(s, now) > ttl(s.kind) as nat
}

/// What an ICMP error about a translated flow becomes for the client.
#[derive(Clone, Copy, Debug, PartialEq, Eq, Structural, Hash)]
pub struct IcmpErrorPrototype {
    pub error: IcmpError,
    /// The proxy address of the flow: the error appears to come from it.
    pub inside_dst: IpAddr,
    /// The resolved address that the error is about.
    pub outside_dst: IpAddr,
    /// The quoted header with the gateway's translation undone.
    pub quoted: QuotedHeader,
}

impl IcmpErrorPrototype {
    pub open spec fn into_packet_spec(self, client: IpConfig) -> IpPacket {
        let dst = match self.inside_dst {
            IpAddr::V4(_) => IpAddr::V4(client.v4),
            IpAddr::V6(_) => IpAddr::V6(client.v6),
        };
        IpPacket {
            src: self.inside_dst,
            dst,
            transport: Transport::IcmpError {
                error: self.error,
                quoted: QuotedHeader { src: dst, ..self.quoted },
            },
        }
    }

    /// The ICMP error addressed to the client's tunnel address of the proxy address's family.
    pub fn into_packet(&self, client: IpConfig) -> (r: IpPacket)
        ensures
            r == self.into_packet_spec(client),
    {
        let dst = match self.inside_dst {
            IpAddr::V4(_) => IpAddr::V4(client.v4),
            IpAddr::V6(_) => IpAddr::V6(client.v6),
        };
        IpPacket {
            src: self.inside_dst,
            dst,
            transport: Transport::IcmpError {
                error: self.error,
                quoted: QuotedHeader {
                    src: dst,
                    dst: self.quoted.dst,
                    kind: self.quoted.kind,
                    sport: self.quoted.sport,
                    dport: self.quoted.dport,
                },
            },
        }
    }
}

/// The outcome of looking up an inbound packet.
#[derive(Clone, Copy, Debug, PartialEq, Eq, Structural, Hash)]
pub enum TranslateIncomingResult {
    /// Rewrite the source to `src` and the destination port (or identifier) to `port`.
    Translated { kind: ProtocolKind, port: u16, src: IpAddr },
    /// An ICMP error about a translated flow.
    IcmpError(IcmpErrorPrototype),
    /// The packet belongs to a session that has timed out.
    ExpiredNatSession,
    /// The packet belongs to no session: it is traffic of a CIDR or Internet resource.
    NoNatSession,
}

/// No outside port is left for a new session.
#[derive(Clone, Copy, Debug, PartialEq, Eq, Structural, Hash)]
pub enum NatError {
    PortsExhausted,
}

/// The outside key that an inbound packet is looked up by.
pub open spec fn incoming_key(p: IpPacket) -> Option<OutsideKey> {
    match p.transport {
        Transport::Tcp { dport, .. } => Some(OutsideKey { kind: ProtocolKind::Tcp, port: dport, dst: p.src }),
        Transport::Udp { dport, .. } => Some(OutsideKey { kind: ProtocolKind::Udp, port: dport, dst: p.src }),
        Transport::Icmp { id } => Some(OutsideKey { kind: ProtocolKind::Icmp, port: id, dst: p.src }),
        Transport::IcmpError { quoted, .. } => Some(
            OutsideKey { kind: quoted.kind, port: quoted.sport, dst: quoted.dst },
        ),
        Transport::Other(_) => None,
    }
}

fn incoming_key_of(p: &IpPacket) -> (r: Option<OutsideKey>)
    ensures
        r == incoming_key(*p),
{
    match p.transport {
        Transport::Tcp { dport, .. } => Some(OutsideKey { kind: ProtocolKind::Tcp, port: dport, dst: p.src }),
        Transport::Udp { dport, .. } => Some(OutsideKey { kind: ProtocolKind::Udp, port: dport, dst: p.src }),
        Transport::Icmp { id } => Some(OutsideKey { kind: ProtocolKind::Icmp, port: id, dst: p.src }),
        Transport::IcmpError { quoted, .. } => Some(
            OutsideKey { kind: quoted.kind, port: quoted.sport, dst: quoted.dst },
        ),
        Transport::Other(_) => None,
    }
}

/// The translation of an inbound packet that matched the live session `s`.
pub open spec fn translated_incoming(s: NatSession, p: IpPacket) -> TranslateIncomingResult {
    match p.transport {
        Transport::IcmpError { error, quoted } => TranslateIncomingResult::IcmpError(
            IcmpErrorPrototype {
                error,
                inside_dst: s.inside_dst,
                outside_dst: s.outside_dst,
                quoted: QuotedHeader { dst: s.inside_dst, sport: s.inside_port, ..quoted },
            },
        ),
        _ => TranslateIncomingResult::Translated { kind: s.kind, port: s.inside_port, src: s.inside_dst },
    }
}

/// The table of translated flows of one client.
pub struct NatTable {
    sessions: Vec<NatSession>,
    expired: Vec<OutsideKey>,
}

proof fn lemma_contains_push<A>(s: Seq<A>, x: A)
    ensures
        forall|y: A| #[trigger] s.push(x).contains(y) <==> (s.contains(y) || y == x),
{
    assert forall|y: A| #[trigger] s.push(x).contains(y) <==> (s.contains(y) || y == x) by {
        let t = s.push(x);
        if s.contains(y) {
            let j = choose|j: int| 0 <= j < s.len() && s[j] == y;
            assert(t[j] == y);
        }
        if y == x {
            assert(t[s.len() as int] == y);
        }
        if t.contains(y) {
            let j = choose|j: int| 0 <= j < t.len() && t[j] == y;
            if j < s.len() {
                assert(s[j] == y);
            }
        }
    }
}

impl NatTable {
    pub closed spec fn sessions(self) -> Seq<NatSession> {
        self.sessions@
    }

    /// Outside keys of sessions that were evicted.
    pub closed spec fn expired(self) -> Seq<OutsideKey> {
        self.expired@
    }

    /// No two sessions share an inside end, nor an outside end.
    pub open spec fn wf(self) -> bool {
        forall|i: int, j: int|
            0 <= i < self.sessions().len() && 0 <= j < self.sessions().len() && i != j ==> {
                &&& !same_inside(#[trigger] self.sessions()[i], #[trigger] self.sessions()[j])
                &&& outside_key(self.sessions()[i]) != outside_key(self.sessions()[j])
            }
    }

    pub open spec fn has_outside(self, k: OutsideKey) -> bool {
        exists|i: int| 0 <= i < self.sessions().len() && outside_key(#[trigger] self.sessions()[i]) == k
    }

    pub open spec fn outside_index(self, k: OutsideKey) -> int {
        choose|i: int| 0 <= i < self.sessions().len() && outside_key(#[trigger] self.sessions()[i]) == k
    }

    pub open spec fn has_inside(self, probe: NatSession) -> bool {
        exists|i: int| 0 <= i < self.sessions().len() && same_inside(#[trigger] self.sessions()[i], probe)
    }

    pub open spec fn inside_index(self, probe: NatSession) -> int {
        choose|i: int| 0 <= i < self.sessions().len() && same_inside(#[trigger] self.sessions()[i], probe)
    }

    /// What an inbound packet translates to at `now`.
    pub open spec fn incoming_spec(self, p: IpPacket, now: u64) -> TranslateIncomingResult {
        match incoming_key(p) {
            None => TranslateIncomingResult::NoNatSession,
            Some(k) => if self.has_outside(k) {
                let s = self.sessions()[self.outside_index(k)];
                if is_stale(s, now) {
                    TranslateIncomingResult::ExpiredNatSession
                } else {
                    translated_incoming(s, p)
                }
            } else if self.expired().contains(k) {
                TranslateIncomingResult::ExpiredNatSession
            } else {
                TranslateIncomingResult::NoNatSession
            },
        }
    }

    pub fn new() -> (r: NatTable)
        ensures
            r.wf(),
            r.sessions() == Seq::<NatSession>::empty(),
            r.expired() == Seq::<OutsideKey>::empty(),
    {
        NatTable { sessions: Vec::new(), expired: Vec::new() }
    }

    /// Whether some session runs to the proxy address `inside_dst`.
    pub fn has_entry_for_inside(&self, inside_dst: IpAddr) -> (r: bool)
        ensures
            r == exists|i: int| 0 <= i < self.sessions().len() && (#[trigger] self.sessions()[i]).inside_dst == inside_dst,
    {
        let mut i: usize = 0;
        while i < self.sessions.len()
            invariant
                i <= self.sessions@.len(),
                forall|j: int| 0 <= j < i ==> (#[trigger] self.sessions@[j]).inside_dst != inside_dst,
            decreases self.sessions.len() - i,
        {
            if self.sessions[i].inside_dst == inside_dst {
                return true;
            }
            i = i + 1;
        }
        false
    }

    fn find_outside(&self, k: OutsideKey) -> (r: Option<usize>)
        requires
            self.wf(),
        ensures
            match r {
                Some(i) => self.has_outside(k) && i == self.outside_index(k),
                None => !self.has_outside(k),
            },
    {
        let mut i: usize = 0;
        while i < self.sessions.len()
            invariant
                i <= self.sessions@.len(),
                self.wf(),
                forall|j: int| 0 <= j < i ==> outside_key(#[trigger] self.sessions@[j]) != k,
            decreases self.sessions.len() - i,
        {
            let s = self.sessions[i];
            if s.kind == k.kind && s.outside_port == k.port && s.outside_dst == k.dst {
                proof {
                    assert(outside_key(s) == k);
                    assert(self.sessions()[i as int] == s);
                    assert(self.has_outside(k));
                    let j = self.outside_index(k);
                    assert(outside_key(self.sessions()[j]) == k);
                    if j != i {
                        assert(outside_key(self.sessions()[i as int]) != outside_key(self.sessions()[j]));
                    }
                }
                return Some(i);
            }
            i = i + 1;
        }
        None
    }

    fn find_inside(&self, probe: &NatSession) -> (r: Option<usize>)
        requires
            self.wf(),
        ensures
            match r {
                Some(i) => self.has_inside(*probe) && i == self.inside_index(*probe),
                None => !self.has_inside(*probe),
            },
    {
        let mut i: usize = 0;
        while i < self.sessions.len()
            invariant
                i <= self.sessions@.len(),
                self.wf(),
                forall|j: int| 0 <= j < i ==> !same_inside(#[trigger] self.sessions@[j], *probe),
            decreases self.sessions.len() - i,
        {
            let s = self.sessions[i];
            if s.kind == probe.kind && s.inside_port == probe.inside_port && s.inside_dst == probe.inside_dst
                && s.outside_dst == probe.outside_dst {
                proof {
                    assert(self.sessions()[i as int] == s);
                    assert(same_inside(self.sessions()[i as int], *probe));
                    assert(self.has_inside(*probe));
                    let j = self.inside_index(*probe);
                    assert(same_inside(self.sessions()[j], *probe));
                    if j != i {
                        assert(!same_inside(self.sessions()[i as int], self.sessions()[j]));
                    }
                }
                return Some(i);
            }
            i = i + 1;
        }
        None
    }

    /// Looks up an inbound packet. It does not count as activity of the session.
    pub fn translate_incoming(&self, packet: &IpPacket, now: u64) -> (r: TranslateIncomingResult)
        requires
            self.wf(),
        ensures
            r == self.incoming_spec(*packet, now),
    {
        let k = match incoming_key_of(packet) {
            None => {
                return TranslateIncomingResult::NoNatSession;
            },
            Some(k) => k,
        };
        match self.find_outside(k) {
            Some(i) => {
                let s = self.sessions[i];
                let idle: u64 = if now >= s.last_used { now - s.last_used } else { 0 };
                if idle > ttl_of(s.kind) {
                    return TranslateIncomingResult::ExpiredNatSession;
                }
                match packet.transport {
                    Transport::IcmpError { error, quoted } => TranslateIncomingResult::IcmpError(
                        IcmpErrorPrototype {
                            error,
                            inside_dst: s.inside_dst,
                            outside_dst: s.outside_dst,
                            quoted: QuotedHeader {
                                src: quoted.src,
                                dst: s.inside_dst,
                                kind: quoted.kind,
                                sport: s.inside_port,
                                dport: quoted.dport,
                            },
                        },
                    ),
                    _ => TranslateIncomingResult::Translated { kind: s.kind, port: s.inside_port, src: s.inside_dst },
                }
            },
            None => {
                if self.was_expired(k) {
                    TranslateIncomingResult::ExpiredNatSession
                } else {
                    TranslateIncomingResult::NoNatSession
                }
            },
        }
    }

    fn was_expired(&self, k: OutsideKey) -> (r: bool)
        ensures
            r == self.expired().contains(k),
    {
        let mut i: usize = 0;
        while i < self.expired.len()
            invariant
                i <= self.expired@.len(),
                forall|j: int| 0 <= j < i ==> self.expired@[j] != k,
            decreases self.expired.len() - i,
        {
            if self.expired[i] == k {
                assert(self.expired@[i as int] == k);
                return true;
            }
            i = i + 1;
        }
        false
    }

    fn outside_free(&self, kind: ProtocolKind, port: u16, dst: IpAddr) -> (r: bool)
        requires
            self.wf(),
        ensures
            r == !self.has_outside(OutsideKey { kind, port, dst }),
    {
        self.find_outside(OutsideKey { kind, port, dst }).is_none()
    }

    /// The lowest outside port that no session of this protocol to `dst` uses.
    fn first_free_port(&self, kind: ProtocolKind, dst: IpAddr) -> (r: Option<u16>)
        requires
            self.wf(),
        ensures
            match r {
                Some(p) => !self.has_outside(OutsideKey { kind, port: p, dst }),
                None => forall|q: u16| #[trigger] self.has_outside(OutsideKey { kind, port: q, dst }),
            },
    {
        let mut p: u32 = 0;
        while p < 65536
            invariant
                p <= 65536,
                self.wf(),
                forall|q: u16| (q as u32) < p ==> #[trigger] self.has_outside(OutsideKey { kind, port: q, dst }),
            decreases 65536 - p,
        {
            if self.outside_free(kind, p as u16, dst) {
                return Some(p as u16);
            }
            p = p + 1;
        }
        assert forall|q: u16| #[trigger] self.has_outside(OutsideKey { kind, port: q, dst }) by {
            assert((q as u32) < p);
        }
        None
    }

    /// Finds or creates the session of an outbound packet and marks it used at `now`.
    /// Returns the outside port. A new session keeps the client's port where that is free.
    pub fn translate_outgoing(
        &mut self,
        kind: ProtocolKind,
        inside_port: u16,
        inside_dst: IpAddr,
        resolved: IpAddr,
        now: u64,
    ) -> (r: Result<u16, NatError>)
        requires
            old(self).wf(),
        ensures
            final(self).wf(),
            final(self).expired() == old(self).expired(),
            ({
                let probe = NatSession { kind, inside_port, inside_dst, outside_port: 0, outside_dst: resolved, last_used: 0 };
                match r {
                    Ok(port) => {
                        let s = NatSession { kind, inside_port, inside_dst, outside_port: port, outside_dst: resolved, last_used: now };
                        if old(self).has_inside(probe) {
                            let i = old(self).inside_index(probe);
                            &&& port == old(self).sessions()[i].outside_port
                            &&& final(self).sessions() == old(self).sessions().update(i, s)
                        } else {
                            &&& !old(self).has_outside(outside_key(s))
                            &&& !old(self).has_outside(OutsideKey { kind, port: inside_port, dst: resolved }) ==> port == inside_port
                            &&& final(self).sessions() == old(self).sessions().push(s)
                        }
                    },
                    Err(_) => {
                        &&& !old(self).has_inside(probe)
                        &&& forall|p: u16| #[trigger] old(self).has_outside(OutsideKey { kind, port: p, dst: resolved })
                        &&& *final(self) == *old(self)
                    },
                }
            }),
    {
        let probe = NatSession { kind, inside_port, inside_dst, outside_port: 0, outside_dst: resolved, last_used: 0 };
        if let Some(i) = self.find_inside(&probe) {
            let port = self.sessions[i].outside_port;
            let s = NatSession { kind, inside_port, inside_dst, outside_port: port, outside_dst: resolved, last_used: now };
            let ghost before = self.sessions@;
            self.sessions.set(i, s);
            proof {
                assert forall|a: int, b: int|
                    0 <= a < self.sessions@.len() && 0 <= b < self.sessions@.len() && a != b implies {
                        &&& !same_inside(#[trigger] self.sessions@[a], #[trigger] self.sessions@[b])
                        &&& outside_key(self.sessions@[a]) != outside_key(self.sessions@[b])
                    } by {
                    assert(same_inside(s, before[i as int]));
                    assert(outside_key(s) == outside_key(before[i as int]));
                }
            }
            return Ok(port);
        }
        let port = if self.outside_free(kind, inside_port, resolved) {
            inside_port
        } else {
            match self.first_free_port(kind, resolved) {
                Some(p) => p,
                None => {
                    return Err(NatError::PortsExhausted);
                },
            }
        };
        let ghost old_t = *self;
        let s = NatSession { kind, inside_port, inside_dst, outside_port: port, outside_dst: resolved, last_used: now };
        let ghost before = self.sessions@;
        self.sessions.push(s);
        proof {
            assert forall|a: int, b: int|
                0 <= a < self.sessions@.len() && 0 <= b < self.sessions@.len() && a != b implies {
                    &&& !same_inside(#[trigger] self.sessions@[a], #[trigger] self.sessions@[b])
                    &&& outside_key(self.sessions@[a]) != outside_key(self.sessions@[b])
                } by {
                if a == before.len() {
                    assert(self.sessions@[b] == before[b]);
                    assert(old_t.sessions()[b] == before[b]);
                    assert(!same_inside(old_t.sessions()[b], probe));
                    assert(outside_key(old_t.sessions()[b]) != outside_key(s));
                } else if b == before.len() {
                    assert(self.sessions@[a] == before[a]);
                    assert(old_t.sessions()[a] == before[a]);
                    assert(!same_inside(old_t.sessions()[a], probe));
                    assert(outside_key(old_t.sessions()[a]) != outside_key(s));
                } else {
                    assert(self.sessions@[a] == before[a]);
                    assert(self.sessions@[b] == before[b]);
                }
            }
        }
        Ok(port)
    }

    /// Evicts every session that has been idle longer than its protocol allows, and
    /// remembers their outside keys so that late return traffic is told apart.
    pub fn handle_timeout(&mut self, now: u64)
        requires
            old(self).wf(),
        ensures
            final(self).wf(),
            forall|s: NatSession| #[trigger] final(self).sessions().contains(s)
                <==> (old(self).sessions().contains(s) && !is_stale(s, now)),
            forall|k: OutsideKey| #[trigger] final(self).expired().contains(k)
                <==> (old(self).expired().contains(k) || exists|s: NatSession|
                    #[trigger] old(self).sessions().contains(s) && is_stale(s, now) && outside_key(s) == k),
    {
        let ghost old_sessions = self.sessions@;
        let ghost old_expired = self.expired@;
        let mut kept: Vec<NatSession> = Vec::new();
        let ghost mut idx: Seq<int> = Seq::empty();
        let mut i: usize = 0;
        while i < self.sessions.len()
            invariant
                i <= self.sessions@.len(),
                self.sessions@ == old_sessions,
                self.wf(),
                idx.len() == kept@.len(),
                forall|j: int| 0 <= j < idx.len() ==> 0 <= #[trigger] idx[j] < i,
                forall|j: int| 0 <= j < idx.len() ==> kept@[j] == old_sessions[#[trigger] idx[j]],
                forall|a: int, b: int| 0 <= a < b < idx.len() ==> #[trigger] idx[a] < #[trigger] idx[b],
                forall|s: NatSession| #[trigger] kept@.contains(s)
                    <==> (old_sessions.take(i as int).contains(s) && !is_stale(s, now)),
                forall|k: OutsideKey| #[trigger] self.expired@.contains(k)
                    <==> (old_expired.contains(k) || exists|s: NatSession|
                        #[trigger] old_sessions.take(i as int).contains(s) && is_stale(s, now) && outside_key(s) == k),
            decreases self.sessions.len() - i,
        {
            let s = self.sessions[i];
            let idle: u64 = if now >= s.last_used { now - s.last_used } else { 0 };
            let ghost take_next = old_sessions.take(i + 1);
            assert(take_next == old_sessions.take(i as int).push(s));
            proof {
                lemma_contains_push(old_sessions.take(i as int), s);
            }
            if idle > ttl_of(s.kind) {
                let k = OutsideKey { kind: s.kind, port: s.outside_port, dst: s.outside_dst };
                let ghost exp_before = self.expired@;
                self.expired.push(k);
                proof {
                    lemma_contains_push(exp_before, k);
                    assert forall|k2: OutsideKey| #[trigger] self.expired@.contains(k2)
                        <==> (old_expired.contains(k2) || exists|s2: NatSession|
                            #[trigger] take_next.contains(s2) && is_stale(s2, now) && outside_key(s2) == k2) by {
                        if exists|s2: NatSession| #[trigger] take_next.contains(s2) && is_stale(s2, now) && outside_key(s2) == k2 {
                            let s2 = choose|s2: NatSession| #[trigger] take_next.contains(s2) && is_stale(s2, now) && outside_key(s2) == k2;
                            if s2 != s {
                                assert(old_sessions.take(i as int).contains(s2));
                            }
                        }
                        if k2 == k {
                            assert(take_next.contains(s));
                        }
                        if exists|s2: NatSession| #[trigger] old_sessions.take(i as int).contains(s2) && is_stale(s2, now) && outside_key(s2) == k2 {
                            let s2 = choose|s2: NatSession| #[trigger] old_sessions.take(i as int).contains(s2) && is_stale(s2, now) && outside_key(s2) == k2;
                            assert(take_next.contains(s2));
                        }
                    }
                }
            } else {
                let ghost kept_before = kept@;
                kept.push(s);
                proof {
                    lemma_contains_push(kept_before, s);
                    idx = idx.push(i as int);
                    assert forall|k2: OutsideKey| #[trigger] self.expired@.contains(k2)
                        <==> (old_expired.contains(k2) || exists|s2: NatSession|
                            #[trigger] take_next.contains(s2) && is_stale(s2, now) && outside_key(s2) == k2) by {
                        if exists|s2: NatSession| #[trigger] take_next.contains(s2) && is_stale(s2, now) && outside_key(s2) == k2 {
                            let s2 = choose|s2: NatSession| #[trigger] take_next.contains(s2) && is_stale(s2, now) && outside_key(s2) == k2;
                            assert(old_sessions.take(i as int).contains(s2));
                        }
                        if exists|s2: NatSession| #[trigger] old_sessions.take(i as int).contains(s2) && is_stale(s2, now) && outside_key(s2) == k2 {
                            let s2 = choose|s2: NatSession| #[trigger] old_sessions.take(i as int).contains(s2) && is_stale(s2, now) && outside_key(s2) == k2;
                            assert(take_next.contains(s2));
                        }
                    }
                }
            }
            i = i + 1;
        }
        assert(old_sessions.take(old_sessions.len() as int) == old_sessions);
        self.sessions = kept;
        proof {
            assert forall|a: int, b: int|
                0 <= a < self.sessions@.len() && 0 <= b < self.sessions@.len() && a != b implies {
                    &&& !same_inside(#[trigger] self.sessions@[a], #[trigger] self.sessions@[b])
                    &&& outside_key(self.sessions@[a]) != outside_key(self.sessions@[b])
                } by {
                let ia = idx[a];
                let ib = idx[b];
                if a < b {
                    assert(idx[a] < idx[b]);
                } else {
                    assert(idx[b] < idx[a]);
                }
                assert(old_sessions[ia] == self.sessions@[a]);
                assert(old_sessions[ib] == self.sessions@[b]);
            }
        }
    }
}

/// Return traffic of a live session is delivered, with the client's proxy address as its
/// source and the client's port as its destination port, exactly while the session has been
/// idle for no longer than its protocol allows; after that it is reported as expired.
pub proof fn lemma_return_traffic_delivered_iff_fresh(t: NatTable, s: NatSession, p: IpPacket, now: u64)
    requires
        t.wf(),
        t.sessions().contains(s),
        incoming_key(p) == Some(outside_key(s)),
        !(p.transport is IcmpError),
    ensures
        t.incoming_spec(p, now) == if idle(s, now) <= ttl(s.kind) as nat {
            TranslateIncomingResult::Translated { kind: s.kind, port: s.inside_port, src: s.inside_dst }
        } else {
            TranslateIncomingResult::ExpiredNatSession
        },
{
    let k = outside_key(s);
    let i = choose|i: int| 0 <= i < t.sessions().len() && t.sessions()[i] == s;
    assert(outside_key(t.sessions()[i]) == k);
    assert(t.has_outside(k));
    let j = t.outside_index(k);
    if i != j {
        assert(outside_key(t.sessions()[i]) != outside_key(t.sessions()[j]));
    }
}

} // verus!
