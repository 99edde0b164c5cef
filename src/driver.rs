//! Decisions of the I/O driver: the single timer slot, the order in which sources are
//! served, and how the answers of the two address families of a host lookup combine.
use crate::net::IpAddr;
use vstd::prelude::*;

verus! {

/// How many packets are read from the TUN device in one batch on constrained platforms.
pub const MAX_INBOUND_PACKET_BATCH_MOBILE: usize = 25;

/// How many packets are read from the TUN device in one batch elsewhere.
pub const MAX_INBOUND_PACKET_BATCH: usize = 100;

/// Capacity of the set of DNS queries in flight.
pub const MAX_CONCURRENT_DNS_QUERIES: usize = 1000;

/// A single timer: at most one deadline, in steady-clock milliseconds.
pub struct Timer {
    deadline: Option<u64>,
}

impl Timer {
    pub closed spec fn deadline_spec(self) -> Option<u64> {
        self.deadline
    }

    pub fn new() -> (r: Timer)
        ensures
            r.deadline_spec() is None,
    {
        Timer { deadline: None }
    }

    pub fn deadline(&self) -> (r: Option<u64>)
        ensures
            r == self.deadline_spec(),
    {
        self.deadline
    }

    /// Sets the deadline; a deadline equal to the present one leaves the timer as it is.
    pub fn reset_timeout(&mut self, deadline: u64)
        ensures
            final(self).deadline_spec() == Some(deadline),
    {
        if self.deadline != Some(deadline) {
            self.deadline = Some(deadline);
        }
    }

    /// Fires once the deadline has passed: reports the current time, never the deadline,
    /// so that time as the state machine sees it never runs backwards, and clears the slot.
    pub fn poll(&mut self, now: u64) -> (r: Option<u64>)
        ensures
            old(self).deadline_spec() is Some && old(self).deadline_spec()->Some_0 <= now ==> r == Some(now)
                && final(self).deadline_spec() is None,
            !(old(self).deadline_spec() is Some && old(self).deadline_spec()->Some_0 <= now) ==> r is None
                && final(self).deadline_spec() == old(self).deadline_spec(),
            r matches Some(t) ==> t >= now,
    {
        if let Some(d) = self.deadline {
            if d <= now {
                self.deadline = None;
                return Some(now);
            }
        }
        None
    }
}

/// The kinds of input the driver hands to the state machine.
#[derive(Clone, Copy, Debug, PartialEq, Eq, Structural, Hash)]
pub enum InputKind {
    Network,
    Device,
    UdpDnsQuery,
    TcpDnsQuery,
    DnsResponse,
    Timeout,
}

/// What is ready in one pass of the driver.
#[derive(Clone, Copy, Debug, PartialEq, Eq, Structural, Hash)]
pub struct Readiness {
    /// Outbound datagrams or TUN writes are still waiting for their destination.
    pub egress_pending: bool,
    pub network: bool,
    pub device: bool,
    pub udp_dns_query: bool,
    pub tcp_dns_query: bool,
    pub dns_response: bool,
    pub timer_fired: bool,
}

/// The input served in a pass: none while egress is pending, otherwise the first ready
/// source in the fixed order network, device, UDP DNS, TCP DNS, DNS responses, timer.
pub open spec fn next_input_spec(r: Readiness) -> Option<InputKind> {
    if r.egress_pending {
        None
    } else if r.network {
        Some(InputKind::Network)
    } else if r.device {
        Some(InputKind::Device)
    } else if r.udp_dns_query {
        Some(InputKind::UdpDnsQuery)
    } else if r.tcp_dns_query {
        Some(InputKind::TcpDnsQuery)
    } else if r.dns_response {
        Some(InputKind::DnsResponse)
    } else if r.timer_fired {
        Some(InputKind::Timeout)
    } else {
        None
    }
}

pub fn next_input(r: &Readiness) -> (k: Option<InputKind>)
    ensures
        k == next_input_spec(*r),
{
    if r.egress_pending {
        None
    } else if r.network {
        Some(InputKind::Network)
    } else if r.device {
        Some(InputKind::Device)
    } else if r.udp_dns_query {
        Some(InputKind::UdpDnsQuery)
    } else if r.tcp_dns_query {
        Some(InputKind::TcpDnsQuery)
    } else if r.dns_response {
        Some(InputKind::DnsResponse)
    } else if r.timer_fired {
        Some(InputKind::Timeout)
    } else {
        None
    }
}

/// Whether a received datagram fits the largest payload of the transport.
pub fn is_max_wg_packet_size(len: usize, max_payload: usize) -> (r: bool)
    ensures
        r == (len <= max_payload),
{
    len <= max_payload
}

/// Combines the IPv4 and IPv6 answers of a host lookup: both addresses lists, IPv6 first,
/// where both succeeded; the one that succeeded otherwise; the IPv4 error where both failed.
pub fn merge_resolved<E>(v4: Result<Vec<IpAddr>, E>, v6: Result<Vec<IpAddr>, E>) -> (r: Result<Vec<IpAddr>, E>)
    ensures
        match (v4, v6) {
            (Ok(a), Ok(b)) => r matches Ok(c) && c@ == b@ + a@,
            (Ok(a), Err(_)) => r matches Ok(c) && c@ == a@,
            (Err(_), Ok(b)) => r matches Ok(c) && c@ == b@,
            (Err(e), Err(_)) => r matches Err(e2) && e2 == e,
        },
{
    match (v4, v6) {
        (Ok(a), Ok(mut b)) => {
            let mut i: usize = 0;
            let ghost b0 = b@;
            while i < a.len()
                invariant
                    i <= a@.len(),
                    b@ == b0 + a@.take(i as int),
                decreases a.len() - i,
            {
                b.push(a[i]);
                assert(a@.take(i + 1) == a@.take(i as int).push(a@[i as int]));
                i = i + 1;
            }
            assert(a@.take(a@.len() as int) == a@);
            Ok(b)
        },
        (Ok(a), Err(_)) => Ok(a),
        (Err(_), Ok(b)) => Ok(b),
        (Err(e), Err(_)) => Err(e),
    }
}

/// How an error of the tunnel is classified.
#[derive(Clone, Copy, Debug, PartialEq, Eq, Structural, Hash)]
pub enum TunnelErrorKind {
    /// Host or network unreachable, address not available.
    Unreachable,
    InvalidInput,
    PermissionDenied,
    /// A packet that cannot be translated.
    ImpossibleTranslation,
    /// The thread that owns the UDP sockets has stopped.
    SocketThreadStopped,
    Other,
}

/// What the event loop does about a tunnel error.
#[derive(Clone, Copy, Debug, PartialEq, Eq, Structural, Hash)]
pub enum ErrorAction {
    /// Log at debug level and go on.
    LogDebug,
    /// Tell the operator once to check the firewall, and go on.
    ExplainPermissionDenied,
    /// Drop silently and go on.
    Ignore,
    /// Log a warning and go on.
    Warn,
    /// Stop the event loop.
    Fatal,
}

/// Remembers whether the permission hint was already given.
pub struct ErrorPolicy {
    logged_permission_denied: bool,
}

impl ErrorPolicy {
    pub closed spec fn explained(self) -> bool {
        self.logged_permission_denied
    }

    pub fn new() -> (r: ErrorPolicy)
        ensures
            !r.explained(),
    {
        ErrorPolicy { logged_permission_denied: false }
    }

    /// Transient I/O errors and invalid input are logged at debug level, a denied permission
    /// is explained once and then passed over, untranslatable packets are dropped silently,
    /// a stopped socket thread is fatal, and anything else is a warning.
    pub fn on_tunnel_error(&mut self, kind: TunnelErrorKind) -> (r: ErrorAction)
        ensures
            final(self).explained() == (old(self).explained() || kind == TunnelErrorKind::PermissionDenied),
            r == match kind {
                TunnelErrorKind::Unreachable => ErrorAction::LogDebug,
                TunnelErrorKind::InvalidInput => ErrorAction::LogDebug,
                TunnelErrorKind::PermissionDenied => if old(self).explained() {
                    ErrorAction::Ignore
                } else {
                    ErrorAction::ExplainPermissionDenied
                },
                TunnelErrorKind::ImpossibleTranslation => ErrorAction::Ignore,
                TunnelErrorKind::SocketThreadStopped => ErrorAction::Fatal,
                TunnelErrorKind::Other => ErrorAction::Warn,
            },
    {
        match kind {
            TunnelErrorKind::Unreachable => ErrorAction::LogDebug,
            TunnelErrorKind::InvalidInput => ErrorAction::LogDebug,
            TunnelErrorKind::PermissionDenied => {
                let before = self.logged_permission_denied;
                self.logged_permission_denied = true;
                if before {
                    ErrorAction::Ignore
                } else {
                    ErrorAction::ExplainPermissionDenied
                }
            },
            TunnelErrorKind::ImpossibleTranslation => ErrorAction::Ignore,
            TunnelErrorKind::SocketThreadStopped => ErrorAction::Fatal,
            TunnelErrorKind::Other => ErrorAction::Warn,
        }
    }
}

/// A bounded set of tasks in flight: once full, new tasks are turned away and the tasks in
/// flight are kept.
pub struct BoundedTasks {
    capacity: usize,
    in_flight: usize,
}

impl BoundedTasks {
    pub closed spec fn capacity_spec(self) -> nat {
        self.capacity as nat
    }

    pub closed spec fn in_flight_spec(self) -> nat {
        self.in_flight as nat
    }

    pub fn new(capacity: usize) -> (r: BoundedTasks)
        ensures
            r.capacity_spec() == capacity,
            r.in_flight_spec() == 0,
    {
        BoundedTasks { capacity, in_flight: 0 }
    }

    pub fn in_flight(&self) -> (r: usize)
        ensures
            r == self.in_flight_spec(),
    {
        self.in_flight
    }

    /// Admits one more task where there is room.
    pub fn try_push(&mut self) -> (r: bool)
        ensures
            final(self).capacity_spec() == old(self).capacity_spec(),
            r == (old(self).in_flight_spec() < old(self).capacity_spec()),
            final(self).in_flight_spec() == if r { old(self).in_flight_spec() + 1 } else { old(self).in_flight_spec() },
    {
        if self.in_flight < self.capacity {
            self.in_flight = self.in_flight + 1;
            true
        } else {
            false
        }
    }

    /// One task finished or timed out.
    pub fn complete(&mut self)
        ensures
            final(self).capacity_spec() == old(self).capacity_spec(),
            final(self).in_flight_spec() == if old(self).in_flight_spec() > 0 {
                (old(self).in_flight_spec() - 1) as nat
            } else {
                0
            },
    {
        if self.in_flight > 0 {
            self.in_flight = self.in_flight - 1;
        }
    }
}

} // verus!
