//! IP addresses, networks and prefix containment.
use vstd::arithmetic::power2::{lemma2_to64, lemma_pow2_adds, lemma_pow2_strictly_increases, lemma_pow2_unfold, pow2};
use vstd::prelude::*;

verus! {

/// An IPv4 or IPv6 host address, held as its big-endian integer value.
#[derive(Clone, Copy, Debug, PartialEq, Eq, Structural, Hash)]
pub enum IpAddr {
    V4(u32),
    V6(u128),
}

/// A network: a base address and the number of leading bits that are fixed.
#[derive(Clone, Copy, Debug, PartialEq, Eq, Structural, Hash)]
pub struct IpNetwork {
    pub addr: IpAddr,
    pub prefix: u8,
}

/// The pair of tunnel addresses assigned to one endpoint.
#[derive(Clone, Copy, Debug, PartialEq, Eq, Structural, Hash)]
pub struct IpConfig {
    pub v4: u32,
    pub v6: u128,
}

/// The integer value of an address.
pub open spec fn addr_bits(a: IpAddr) -> nat {
    match a {
        IpAddr::V4(x) => x as nat,
        IpAddr::V6(x) => x as nat,
    }
}

/// The number of bits of an address of this family.
pub open spec fn addr_width(a: IpAddr) -> nat {
    match a {
        IpAddr::V4(_) => 32,
        IpAddr::V6(_) => 128,
    }
}

pub open spec fn same_family(a: IpAddr, b: IpAddr) -> bool {
    (a is V4) == (b is V4)
}

impl IpAddr {
    pub fn is_ipv4(&self) -> (r: bool)
        ensures
            r == (*self is V4),
    {
        match self {
            IpAddr::V4(_) => true,
            IpAddr::V6(_) => false,
        }
    }
}

impl IpNetwork {
    /// A well-formed network has a prefix no longer than the address and no host bits set.
    pub open spec fn wf(self) -> bool {
        &&& self.prefix as nat <= addr_width(self.addr)
        &&& addr_bits(self.addr) % pow2((addr_width(self.addr) - self.prefix) as nat) == 0
    }

    /// `ip` lies in this network: same family and the same leading `prefix` bits.
    pub open spec fn contains_spec(self, ip: IpAddr) -> bool {
        let k = (addr_width(self.addr) - self.prefix) as nat;
        &&& same_family(self.addr, ip)
        &&& (self.prefix == 0 || addr_bits(ip) / pow2(k) == addr_bits(self.addr) / pow2(k))
    }

    /// Every address of `inner` lies in `self`.
    pub open spec fn covers_spec(self, inner: IpNetwork) -> bool {
        &&& same_family(self.addr, inner.addr)
        &&& self.prefix <= inner.prefix
        &&& self.contains_spec(inner.addr)
    }

    /// The network that holds exactly one address.
    pub open spec fn host_spec(ip: IpAddr) -> IpNetwork {
        IpNetwork {
            addr: ip,
            prefix: match ip {
                IpAddr::V4(_) => 32u8,
                IpAddr::V6(_) => 128u8,
            },
        }
    }

    /// The single-address network of `ip` (a /32 or a /128).
    pub fn host(ip: IpAddr) -> (r: IpNetwork)
        ensures
            r == IpNetwork::host_spec(ip),
            r.wf(),
    {
        proof {
            assert(pow2(0) == 1) by { lemma2_to64(); }
        }
        match ip {
            IpAddr::V4(_) => IpNetwork { addr: ip, prefix: 32 },
            IpAddr::V6(_) => IpNetwork { addr: ip, prefix: 128 },
        }
    }

    /// Builds a network; `None` where the prefix is too long or host bits are set.
    pub fn new(addr: IpAddr, prefix: u8) -> (r: Option<IpNetwork>)
        ensures
            r matches Some(n) ==> n == (IpNetwork { addr, prefix }),
            r is Some <==> (IpNetwork { addr, prefix }).wf(),
    {
        let width: u8 = match addr {
            IpAddr::V4(_) => 32,
            IpAddr::V6(_) => 128,
        };
        if prefix > width {
            return None;
        }
        let bits: u128 = match addr {
            IpAddr::V4(a) => a as u128,
            IpAddr::V6(a) => a,
        };
        let k = (width - prefix) as u32;
        let ok = if k == 128 {
            proof {
                lemma_pow2_128();
                assert(bits as nat % pow2(128) == bits as nat);
            }
            bits == 0
        } else {
            let p = pow2_u128(k);
            bits % p == 0
        };
        if ok {
            Some(IpNetwork { addr, prefix })
        } else {
            None
        }
    }

    /// Whether `ip` lies in this network.
    pub fn contains(&self, ip: IpAddr) -> (r: bool)
        requires
            self.prefix as nat <= addr_width(self.addr),
        ensures
            r == self.contains_spec(ip),
    {
        if self.prefix == 0 {
            return self.addr.is_ipv4() == ip.is_ipv4();
        }
        match (self.addr, ip) {
            (IpAddr::V4(n), IpAddr::V4(a)) => {
                let p = pow2_u128((32 - self.prefix) as u32);
                (n as u128) / p == (a as u128) / p
            },
            (IpAddr::V6(n), IpAddr::V6(a)) => {
                let p = pow2_u128((128 - self.prefix) as u32);
                n / p == a / p
            },
            _ => false,
        }
    }

    /// Whether every address of `inner` lies in this network.
    pub fn covers(&self, inner: &IpNetwork) -> (r: bool)
        requires
            self.prefix as nat <= addr_width(self.addr),
        ensures
            r == self.covers_spec(*inner),
    {
        self.addr.is_ipv4() == inner.addr.is_ipv4() && self.prefix <= inner.prefix
            && self.contains(inner.addr)
    }
}

/// A single-address network is well-formed.
pub proof fn lemma_host_wf(ip: IpAddr)
    ensures
        IpNetwork::host_spec(ip).wf(),
{
    lemma2_to64();
}

/// Two well-formed networks of the same length that hold the same address are equal.
pub proof fn lemma_same_prefix_same_net(a: IpNetwork, b: IpNetwork, ip: IpAddr)
    requires
        a.wf(),
        b.wf(),
        a.prefix == b.prefix,
        a.contains_spec(ip),
        b.contains_spec(ip),
    ensures
        a == b,
{
    lemma2_to64();
    lemma_pow2_128();
    let k = (addr_width(a.addr) - a.prefix) as nat;
    let d = pow2(k);
    vstd::arithmetic::power2::lemma_pow2_pos(k);
    let x = addr_bits(a.addr);
    let y = addr_bits(b.addr);
    if a.prefix == 0 {
        assert(x < d) by {
            match a.addr {
                IpAddr::V4(v) => {}
                IpAddr::V6(v) => {}
            }
        }
        assert(y < d) by {
            match b.addr {
                IpAddr::V4(v) => {}
                IpAddr::V6(v) => {}
            }
        }
        vstd::arithmetic::div_mod::lemma_small_mod(x, d);
        vstd::arithmetic::div_mod::lemma_small_mod(y, d);
    } else {
        vstd::arithmetic::div_mod::lemma_fundamental_div_mod(x as int, d as int);
        vstd::arithmetic::div_mod::lemma_fundamental_div_mod(y as int, d as int);
    }
    assert(x == y);
}

/// Agreeing above bit `kb` implies agreeing above any higher bit `ka`.
pub proof fn lemma_div_coarser(x: nat, y: nat, kb: nat, ka: nat)
    requires
        kb <= ka,
        x / pow2(kb) == y / pow2(kb),
    ensures
        x / pow2(ka) == y / pow2(ka),
{
    vstd::arithmetic::power2::lemma_pow2_pos(kb);
    vstd::arithmetic::power2::lemma_pow2_pos((ka - kb) as nat);
    lemma_pow2_adds(kb, (ka - kb) as nat);
    vstd::arithmetic::div_mod::lemma_div_denominator(x as int, pow2(kb) as int, pow2((ka - kb) as nat) as int);
    vstd::arithmetic::div_mod::lemma_div_denominator(y as int, pow2(kb) as int, pow2((ka - kb) as nat) as int);
}

/// Of two networks that hold the same address, the shorter covers the longer.
pub proof fn lemma_shorter_covers(a: IpNetwork, b: IpNetwork, ip: IpAddr)
    requires
        a.contains_spec(ip),
        b.contains_spec(ip),
        a.prefix <= b.prefix,
        b.prefix as nat <= addr_width(b.addr),
    ensures
        a.covers_spec(b),
{
    if a.prefix != 0 {
        let ka = (addr_width(a.addr) - a.prefix) as nat;
        let kb = (addr_width(b.addr) - b.prefix) as nat;
        lemma_div_coarser(addr_bits(ip), addr_bits(b.addr), kb, ka);
    }
}

/// Covering is transitive.
pub proof fn lemma_covers_trans(a: IpNetwork, b: IpNetwork, c: IpNetwork)
    requires
        a.covers_spec(b),
        b.covers_spec(c),
        b.prefix as nat <= addr_width(b.addr),
    ensures
        a.covers_spec(c),
{
    if a.prefix != 0 {
        let ka = (addr_width(a.addr) - a.prefix) as nat;
        let kb = (addr_width(b.addr) - b.prefix) as nat;
        if b.prefix != 0 {
            lemma_div_coarser(addr_bits(c.addr), addr_bits(b.addr), kb, ka);
        }
    }
}

/// A single-address network holds only its own address.
pub proof fn lemma_host_contains(x: IpAddr, ip: IpAddr)
    requires
        IpNetwork::host_spec(x).contains_spec(ip),
    ensures
        x == ip,
{
    lemma2_to64();
    match (x, ip) {
        (IpAddr::V4(a), IpAddr::V4(b)) => {
            assert(a as nat / 1 == a as nat) by (nonlinear_arith);
            assert(b as nat / 1 == b as nat) by (nonlinear_arith);
        },
        (IpAddr::V6(a), IpAddr::V6(b)) => {
            assert(a as nat / 1 == a as nat) by (nonlinear_arith);
            assert(b as nat / 1 == b as nat) by (nonlinear_arith);
        },
        _ => {},
    }
}

proof fn lemma_pow2_128()
    ensures
        pow2(128) == 0x1_0000_0000_0000_0000_0000_0000_0000_0000,
{
    lemma2_to64();
    lemma_pow2_adds(64, 64);
}

/// `2^k` as a machine integer.
fn pow2_u128(k: u32) -> (r: u128)
    requires
        k <= 127,
    ensures
        r as nat == pow2(k as nat),
        r > 0,
{
    let mut p: u128 = 1;
    let mut i: u32 = 0;
    proof {
        lemma2_to64();
    }
    while i < k
        invariant
            i <= k <= 127,
            p as nat == pow2(i as nat),
        decreases k - i,
    {
        proof {
            lemma_pow2_unfold((i + 1) as nat);
            lemma_pow2_strictly_increases((i + 1) as nat, 128);
            lemma_pow2_128();
        }
        p = p * 2;
        i = i + 1;
    }
    proof {
        vstd::arithmetic::power2::lemma_pow2_pos(k as nat);
    }
    p
}

} // verus!
