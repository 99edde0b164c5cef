//! The clients of the gateway, by id and by tunnel address.
use crate::client::ClientOnGateway;
use crate::net::IpAddr;
use crate::resource::ClientId;
use vstd::prelude::*;

verus! {

/// Clients by id, with an index from tunnel addresses to client ids.
pub struct PeerStore {
    peers: Vec<ClientOnGateway>,
    id_by_ip: Vec<(IpAddr, ClientId)>,
}

impl PeerStore {
    pub closed spec fn peers(self) -> Seq<ClientOnGateway> {
        self.peers@
    }

    pub closed spec fn ip_index(self) -> Seq<(IpAddr, ClientId)> {
        self.id_by_ip@
    }

    pub open spec fn has_peer(self, id: ClientId) -> bool {
        exists|i: int| 0 <= i < self.peers().len() && (#[trigger] self.peers()[i]).id_spec() == id
    }

    /// The client that tunnel address `ip` is registered to.
    pub open spec fn ip_owner(self, ip: IpAddr) -> Option<ClientId> {
        if exists|j: int| 0 <= j < self.ip_index().len() && (#[trigger] self.ip_index()[j]).0 == ip {
            Some(self.ip_index()[choose|j: int| 0 <= j < self.ip_index().len() && (#[trigger] self.ip_index()[j]).0 == ip].1)
        } else {
            None
        }
    }

    /// Unique client ids and addresses, every client in good order, and every indexed
    /// address registered to a client that is present.
    pub open spec fn inv(self) -> bool {
        &&& forall|i: int, j: int| 0 <= i < self.peers().len() && 0 <= j < self.peers().len() && i != j
            ==> (#[trigger] self.peers()[i]).id_spec() != (#[trigger] self.peers()[j]).id_spec()
        &&& forall|i: int| 0 <= i < self.peers().len() ==> (#[trigger] self.peers()[i]).inv()
        &&& forall|i: int, j: int| 0 <= i < self.ip_index().len() && 0 <= j < self.ip_index().len() && i != j
            ==> (#[trigger] self.ip_index()[i]).0 != (#[trigger] self.ip_index()[j]).0
        &&& forall|j: int| 0 <= j < self.ip_index().len() ==> self.has_peer((#[trigger] self.ip_index()[j]).1)
    }

    pub fn new() -> (r: PeerStore)
        ensures
            r.inv(),
            r.peers().len() == 0,
            r.ip_index().len() == 0,
    {
        PeerStore { peers: Vec::new(), id_by_ip: Vec::new() }
    }

    pub fn len(&self) -> (r: usize)
        ensures
            r == self.peers().len(),
    {
        self.peers.len()
    }

    pub fn index_of(&self, id: ClientId) -> (r: Option<usize>)
        ensures
            match r {
                Some(i) => i < self.peers().len() && self.peers()[i as int].id_spec() == id,
                None => !self.has_peer(id),
            },
    {
        let mut i: usize = 0;
        while i < self.peers.len()
            invariant
                i <= self.peers@.len(),
                forall|k: int| 0 <= k < i ==> (#[trigger] self.peers@[k]).id_spec() != id,
            decreases self.peers.len() - i,
        {
            if self.peers[i].id() == id {
                return Some(i);
            }
            i = i + 1;
        }
        None
    }

    /// The client that tunnel address `ip` is registered to, by exact match.
    pub fn peer_by_ip(&self, ip: IpAddr) -> (r: Option<ClientId>)
        requires
            self.inv(),
        ensures
            r == self.ip_owner(ip),
    {
        let mut j: usize = 0;
        while j < self.id_by_ip.len()
            invariant
                j <= self.id_by_ip@.len(),
                self.inv(),
                forall|k: int| 0 <= k < j ==> (#[trigger] self.id_by_ip@[k]).0 != ip,
            decreases self.id_by_ip.len() - j,
        {
            if self.id_by_ip[j].0 == ip {
                proof {
                    let ix = self.ip_index();
                    assert(ix[j as int].0 == ip);
                    let c = choose|k: int| 0 <= k < ix.len() && (#[trigger] ix[k]).0 == ip;
                    if c != j {
                        assert(ix[c].0 != ix[j as int].0);
                    }
                }
                return Some(self.id_by_ip[j].1);
            }
            j = j + 1;
        }
        None
    }

    /// The client at position `i`.
    pub fn get(&self, i: usize) -> (r: &ClientOnGateway)
        requires
            i < self.peers().len(),
        ensures
            *r == self.peers()[i as int],
    {
        &self.peers[i]
    }

    /// Takes the client at position `i` out to work on it; `put_back` returns it.
    pub fn take(&mut self, i: usize) -> (r: ClientOnGateway)
        requires
            i < old(self).peers().len(),
            old(self).inv(),
        ensures
            r == old(self).peers()[i as int],
            r.inv(),
            final(self).peers() == old(self).peers().remove(i as int),
            final(self).ip_index() == old(self).ip_index(),
    {
        self.peers.remove(i)
    }

    /// Returns a client taken out of `orig` at position `i`, with the same id.
    pub fn put_back(&mut self, i: usize, peer: ClientOnGateway, Ghost(orig): Ghost<PeerStore>)
        requires
            orig.inv(),
            i < orig.peers().len(),
            old(self).peers() == orig.peers().remove(i as int),
            old(self).ip_index() == orig.ip_index(),
            peer.inv(),
            peer.id_spec() == orig.peers()[i as int].id_spec(),
        ensures
            final(self).inv(),
            final(self).peers() == orig.peers().update(i as int, peer),
            final(self).ip_index() == orig.ip_index(),
            forall|id: ClientId| #[trigger] final(self).has_peer(id) == orig.has_peer(id),
            forall|x: IpAddr| #[trigger] final(self).ip_owner(x) == orig.ip_owner(x),
    {
        self.peers.insert(i, peer);
        proof {
            let o = orig.peers();
            let t = self.peers();
            assert(t =~= o.update(i as int, peer));
            assert forall|a: int, b: int| 0 <= a < t.len() && 0 <= b < t.len() && a != b
                implies (#[trigger] t[a]).id_spec() != (#[trigger] t[b]).id_spec() by {
                assert(t[a].id_spec() == o[a].id_spec());
                assert(t[b].id_spec() == o[b].id_spec());
            }
            assert forall|a: int| 0 <= a < t.len() implies (#[trigger] t[a]).inv() by {
                if a != i {
                    assert(t[a] == o[a]);
                }
            }
            assert forall|id: ClientId| #[trigger] self.has_peer(id) == orig.has_peer(id) by {
                if orig.has_peer(id) {
                    let w = choose|w: int| 0 <= w < o.len() && (#[trigger] o[w]).id_spec() == id;
                    assert(t[w].id_spec() == id);
                }
                if self.has_peer(id) {
                    let w = choose|w: int| 0 <= w < t.len() && (#[trigger] t[w]).id_spec() == id;
                    assert(o[w].id_spec() == id);
                }
            }
            assert forall|j: int| 0 <= j < self.ip_index().len() implies self.has_peer((#[trigger] self.ip_index()[j]).1) by {
                assert(orig.ip_index()[j] == self.ip_index()[j]);
                assert(orig.has_peer(self.ip_index()[j].1));
            }
        }
    }

    /// Adds a client that is not present yet.
    pub fn insert(&mut self, peer: ClientOnGateway)
        requires
            old(self).inv(),
            peer.inv(),
            !old(self).has_peer(peer.id_spec()),
        ensures
            final(self).inv(),
            final(self).peers() == old(self).peers().push(peer),
            final(self).ip_index() == old(self).ip_index(),
            forall|id: ClientId| #[trigger] final(self).has_peer(id) == (old(self).has_peer(id) || id == peer.id_spec()),
            forall|x: IpAddr| #[trigger] final(self).ip_owner(x) == old(self).ip_owner(x),
    {
        let ghost ps = self.peers@;
        assert(ps == old(self).peers());
        assert(forall|i: int| 0 <= i < ps.len() ==> (#[trigger] ps[i]).inv());
        self.peers.push(peer);
        proof {
            let t = self.peers();
            assert forall|i: int, j: int| 0 <= i < t.len() && 0 <= j < t.len() && i != j
                implies (#[trigger] t[i]).id_spec() != (#[trigger] t[j]).id_spec() by {
                if i < ps.len() && j < ps.len() {
                    assert(t[i] == ps[i] && t[j] == ps[j]);
                } else if i < ps.len() {
                    assert(t[i] == ps[i]);
                } else {
                    assert(t[j] == ps[j]);
                }
            }
            assert forall|i: int| 0 <= i < t.len() implies (#[trigger] t[i]).inv() by {
                if i < ps.len() {
                    assert(t[i] == ps[i]);
                }
            }
            assert forall|j: int| 0 <= j < self.ip_index().len() implies self.has_peer((#[trigger] self.ip_index()[j]).1) by {
                let id = self.ip_index()[j].1;
                assert(old(self).ip_index()[j] == self.ip_index()[j]);
                assert(old(self).has_peer(id));
                let k = choose|k: int| 0 <= k < old(self).peers().len() && (#[trigger] old(self).peers()[k]).id_spec() == id;
                assert(t[k] == ps[k]);
                assert(self.peers()[k].id_spec() == id);
            }
            assert(self.ip_index() == old(self).ip_index());
            assert forall|id: ClientId| #[trigger] self.has_peer(id) == (old(self).has_peer(id) || id == peer.id_spec()) by {
                if old(self).has_peer(id) {
                    let w = choose|w: int| 0 <= w < old(self).peers().len() && (#[trigger] old(self).peers()[w]).id_spec() == id;
                    assert(t[w] == ps[w]);
                }
                if id == peer.id_spec() {
                    assert(t[ps.len() as int] == peer);
                }
                if self.has_peer(id) && id != peer.id_spec() {
                    let w = choose|w: int| 0 <= w < t.len() && (#[trigger] t[w]).id_spec() == id;
                    assert(t[w] == ps[w]);
                }
            }
        }
    }

    /// Every registered address belongs to a client that is present.
    pub proof fn lemma_owner_present(self)
        requires
            self.inv(),
        ensures
            forall|x: IpAddr| #[trigger] self.ip_owner(x) is Some ==> self.has_peer(self.ip_owner(x)->Some_0),
    {
        assert forall|x: IpAddr| #[trigger] self.ip_owner(x) is Some implies self.has_peer(self.ip_owner(x)->Some_0) by {
            let ix = self.ip_index();
            let j = choose|j: int| 0 <= j < ix.len() && (#[trigger] ix[j]).0 == x;
            assert(self.has_peer(ix[j].1));
        }
    }

    fn ip_position(&self, ip: IpAddr) -> (r: Option<usize>)
        ensures
            match r {
                Some(j) => j < self.ip_index().len() && self.ip_index()[j as int].0 == ip,
                None => forall|k: int| 0 <= k < self.ip_index().len() ==> (#[trigger] self.ip_index()[k]).0 != ip,
            },
    {
        let mut j: usize = 0;
        while j < self.id_by_ip.len()
            invariant
                j <= self.id_by_ip@.len(),
                forall|k: int| 0 <= k < j ==> (#[trigger] self.id_by_ip@[k]).0 != ip,
            decreases self.id_by_ip.len() - j,
        {
            if self.id_by_ip[j].0 == ip {
                return Some(j);
            }
            j = j + 1;
        }
        None
    }

    /// Registers tunnel address `ip` to client `id`, replacing an earlier registration.
    pub fn add_ip(&mut self, id: ClientId, ip: IpAddr)
        requires
            old(self).inv(),
            old(self).has_peer(id),
        ensures
            final(self).inv(),
            final(self).peers() == old(self).peers(),
            forall|c: ClientId| #[trigger] final(self).has_peer(c) == old(self).has_peer(c),
            final(self).ip_owner(ip) == Some(id),
            forall|x: IpAddr| x != ip ==> #[trigger] final(self).ip_owner(x) == old(self).ip_owner(x),
    {
        let ghost ix = self.ip_index();
        let pos = self.ip_position(ip);
        let j: usize = match pos {
            Some(j) => j,
            None => self.id_by_ip.len(),
        };
        if j < self.id_by_ip.len() {
            self.id_by_ip.set(j, (ip, id));
        } else {
            self.id_by_ip.push((ip, id));
        }
        proof {
            let t = self.ip_index();
            let at = if j < ix.len() { j as int } else { ix.len() as int };
            assert(t[at] == (ip, id));
            assert forall|a: int, b: int| 0 <= a < t.len() && 0 <= b < t.len() && a != b
                implies (#[trigger] t[a]).0 != (#[trigger] t[b]).0 by {
                if a != at && b != at {
                    assert(t[a] == ix[a] && t[b] == ix[b]);
                } else if a == at {
                    assert(t[b] == ix[b]);
                    if j >= ix.len() {
                        assert(ix[b].0 != ip);
                    } else {
                        assert(ix[j as int].0 == ip);
                        assert(ix[b].0 != ix[j as int].0);
                    }
                } else {
                    assert(t[a] == ix[a]);
                    if j >= ix.len() {
                        assert(ix[a].0 != ip);
                    } else {
                        assert(ix[j as int].0 == ip);
                        assert(ix[a].0 != ix[j as int].0);
                    }
                }
            }
            assert(self.peers() == old(self).peers());
            assert forall|c: ClientId| #[trigger] self.has_peer(c) == old(self).has_peer(c) by {
                if old(self).has_peer(c) {
                    let w = choose|w: int| 0 <= w < old(self).peers().len() && (#[trigger] old(self).peers()[w]).id_spec() == c;
                    assert(self.peers()[w].id_spec() == c);
                }
                if self.has_peer(c) {
                    let w = choose|w: int| 0 <= w < self.peers().len() && (#[trigger] self.peers()[w]).id_spec() == c;
                    assert(old(self).peers()[w].id_spec() == c);
                }
            }
            assert forall|k: int| 0 <= k < t.len() implies self.has_peer((#[trigger] t[k]).1) by {
                let c = t[k].1;
                if k != at {
                    assert(t[k] == ix[k]);
                    assert(old(self).ip_index()[k] == ix[k]);
                    assert(old(self).has_peer(c));
                }
                let w = choose|w: int| 0 <= w < old(self).peers().len() && (#[trigger] old(self).peers()[w]).id_spec() == c;
                assert(self.peers()[w].id_spec() == c);
            }
            assert forall|k: int| 0 <= k < ix.len() implies self.has_peer((#[trigger] ix[k]).1) by {
                assert(old(self).ip_index()[k] == ix[k]);
            }
            lemma_index_owner(t, at);
            assert forall|x: IpAddr| x != ip implies #[trigger] self.ip_owner(x) == old(self).ip_owner(x) by {
                if exists|k: int| 0 <= k < ix.len() && (#[trigger] ix[k]).0 == x {
                    let k = choose|k: int| 0 <= k < ix.len() && (#[trigger] ix[k]).0 == x;
                    assert(k != at);
                    assert(t[k] == ix[k]);
                    lemma_index_owner(ix, k);
                    lemma_index_owner(t, k);
                } else {
                    assert forall|k: int| 0 <= k < t.len() implies (#[trigger] t[k]).0 != x by {
                        if k != at {
                            assert(t[k] == ix[k]);
                        }
                    }
                }
            }
        }
    }

    /// Removes a client and every address registered to it.
    pub fn remove(&mut self, id: ClientId)
        requires
            old(self).inv(),
        ensures
            final(self).inv(),
            !final(self).has_peer(id),
            forall|other: ClientId| other != id ==> #[trigger] final(self).has_peer(other) == old(self).has_peer(other),
            forall|p: ClientOnGateway| #[trigger] final(self).peers().contains(p) ==> old(self).peers().contains(p),
            forall|x: IpAddr| #[trigger] final(self).ip_owner(x) == if old(self).ip_owner(x) == Some(id) {
                None
            } else {
                old(self).ip_owner(x)
            },
    {
        let mut mask: Vec<bool> = Vec::new();
        let mut i: usize = 0;
        while i < self.peers.len()
            invariant
                i <= self.peers@.len(),
                mask@.len() == i,
                forall|k: int| 0 <= k < i ==> #[trigger] mask@[k] == (self.peers@[k].id_spec() != id),
            decreases self.peers.len() - i,
        {
            mask.push(self.peers[i].id() != id);
            i = i + 1;
        }
        let ghost before = *self;
        self.keep(&mask);
        proof {
            let ps = before.peers();
            assert forall|other: ClientId| #[trigger] self.has_peer(other)
                == (other != id && before.has_peer(other)) by {
                if before.has_peer(other) && other != id {
                    let k = choose|k: int| 0 <= k < ps.len() && (#[trigger] ps[k]).id_spec() == other;
                    assert(mask@[k]);
                }
            }
            before.lemma_owner_present();
            assert forall|p: ClientOnGateway| #[trigger] self.peers().contains(p) implies ps.contains(p) by {
                let k = choose|k: int| 0 <= k < ps.len() && ps[k] == p && #[trigger] mask@[k];
            }
        }
    }

    /// Removes every client that holds no resource any more, with its addresses.
    pub fn retain_non_empty(&mut self)
        requires
            old(self).inv(),
        ensures
            final(self).inv(),
            forall|i: int| 0 <= i < final(self).peers().len() ==> (#[trigger] final(self).peers()[i]).resources().len() > 0,
            forall|i: int| 0 <= i < old(self).peers().len() && (#[trigger] old(self).peers()[i]).resources().len() > 0
                ==> final(self).peers().contains(old(self).peers()[i]),
            forall|p: ClientOnGateway| #[trigger] final(self).peers().contains(p) ==> old(self).peers().contains(p),
            forall|id: ClientId| #[trigger] final(self).has_peer(id) <==> exists|i: int|
                0 <= i < old(self).peers().len() && old(self).peers()[i].id_spec() == id
                    && (#[trigger] old(self).peers()[i]).resources().len() > 0,
    {
        let mut mask: Vec<bool> = Vec::new();
        let mut i: usize = 0;
        while i < self.peers.len()
            invariant
                i <= self.peers@.len(),
                mask@.len() == i,
                forall|k: int| 0 <= k < i ==> #[trigger] mask@[k] == (self.peers@[k].resources().len() > 0),
            decreases self.peers.len() - i,
        {
            mask.push(!self.peers[i].is_emptied());
            i = i + 1;
        }
        let ghost ps = self.peers@;
        self.keep(&mask);
        proof {
            assert forall|i: int| 0 <= i < self.peers().len() implies (#[trigger] self.peers()[i]).resources().len() > 0 by {
                assert(self.peers().contains(self.peers()[i]));
            }
            assert forall|i: int| 0 <= i < ps.len() && (#[trigger] ps[i]).resources().len() > 0
                implies self.peers().contains(ps[i]) by {
                assert(mask@[i]);
            }
            assert forall|p: ClientOnGateway| #[trigger] self.peers().contains(p) implies ps.contains(p) by {
                let k = choose|k: int| 0 <= k < ps.len() && ps[k] == p && #[trigger] mask@[k];
            }
            assert forall|id: ClientId| #[trigger] self.has_peer(id) <==> exists|i: int|
                0 <= i < ps.len() && ps[i].id_spec() == id && (#[trigger] ps[i]).resources().len() > 0 by {
                if self.has_peer(id) {
                    let k = choose|k: int| 0 <= k < ps.len() && ps[k].id_spec() == id && #[trigger] mask@[k];
                    assert(ps[k].resources().len() > 0);
                }
                if exists|i: int| 0 <= i < ps.len() && ps[i].id_spec() == id && (#[trigger] ps[i]).resources().len() > 0 {
                    let k = choose|i: int| 0 <= i < ps.len() && ps[i].id_spec() == id && (#[trigger] ps[i]).resources().len() > 0;
                    assert(mask@[k]);
                }
            }
        }
    }

    /// Keeps the clients where `mask` holds, and the addresses registered to them.
    pub fn keep(&mut self, mask: &Vec<bool>)
        requires
            old(self).inv(),
            mask@.len() == old(self).peers().len(),
        ensures
            final(self).inv(),
            forall|p: ClientOnGateway| #[trigger] final(self).peers().contains(p) <==> exists|i: int|
                0 <= i < old(self).peers().len() && old(self).peers()[i] == p && #[trigger] mask@[i],
            forall|id: ClientId| #[trigger] final(self).has_peer(id) <==> exists|i: int|
                0 <= i < old(self).peers().len() && old(self).peers()[i].id_spec() == id && #[trigger] mask@[i],
            forall|x: IpAddr| #[trigger] final(self).ip_owner(x) == match old(self).ip_owner(x) {
                Some(c) => if final(self).has_peer(c) { Some(c) } else { None },
                None => None,
            },
    {
        let ghost old_self = *self;
        let ghost orig = self.peers();
        let mut rest: Vec<ClientOnGateway> = Vec::new();
        std::mem::swap(&mut rest, &mut self.peers);
        let n = rest.len();
        let mut out: Vec<ClientOnGateway> = Vec::new();
        let ghost mut idx: Seq<int> = Seq::empty();
        let mut i: usize = 0;
        while rest.len() > 0
            invariant
                i <= orig.len(),
                orig.len() == n,
                mask@.len() == orig.len(),
                rest@ == orig.subrange(i as int, orig.len() as int),
                idx.len() == out@.len(),
                forall|j: int| 0 <= j < idx.len() ==> 0 <= #[trigger] idx[j] < i,
                forall|j: int| 0 <= j < idx.len() ==> out@[j] == orig[#[trigger] idx[j]] && mask@[idx[j]],
                forall|a: int, b: int| 0 <= a < b < idx.len() ==> #[trigger] idx[a] < #[trigger] idx[b],
                forall|k: int| 0 <= k < i && #[trigger] mask@[k] ==> exists|j: int| 0 <= j < idx.len() && idx[j] == k,
            decreases rest.len(),
        {
            let e = rest.remove(0);
            assert(e == orig[i as int]);
            let ghost idx0 = idx;
            if mask[i] {
                out.push(e);
                proof {
                    idx = idx.push(i as int);
                }
            }
            assert(rest@ =~= orig.subrange(i + 1, orig.len() as int));
            proof {
                assert forall|k: int| 0 <= k < i + 1 && #[trigger] mask@[k] implies exists|j: int| 0 <= j < idx.len() && idx[j] == k by {
                    if k == i {
                        assert(idx[idx.len() - 1] == k);
                    } else {
                        let j = choose|j: int| 0 <= j < idx0.len() && idx0[j] == k;
                        assert(idx[j] == k);
                    }
                }
            }
            i = i + 1;
        }
        self.peers = out;
        assert(self.ip_index() == old_self.ip_index());
        proof {
            let ps = self.peers();
            assert forall|a: int, b: int| 0 <= a < ps.len() && 0 <= b < ps.len() && a != b
                implies (#[trigger] ps[a]).id_spec() != (#[trigger] ps[b]).id_spec() by {
                if a < b {
                    assert(idx[a] < idx[b]);
                } else {
                    assert(idx[b] < idx[a]);
                }
                assert(ps[a] == orig[idx[a]] && ps[b] == orig[idx[b]]);
            }
            assert forall|a: int| 0 <= a < ps.len() implies (#[trigger] ps[a]).inv() by {
                assert(ps[a] == orig[idx[a]]);
            }
            assert forall|p: ClientOnGateway| #[trigger] ps.contains(p) <==> exists|k: int|
                0 <= k < orig.len() && orig[k] == p && #[trigger] mask@[k] by {
                if ps.contains(p) {
                    let a = choose|a: int| 0 <= a < ps.len() && ps[a] == p;
                    assert(ps[a] == orig[idx[a]]);
                    assert(mask@[idx[a]]);
                }
                if exists|k: int| 0 <= k < orig.len() && orig[k] == p && #[trigger] mask@[k] {
                    let k = choose|k: int| 0 <= k < orig.len() && orig[k] == p && #[trigger] mask@[k];
                    let j = choose|j: int| 0 <= j < idx.len() && idx[j] == k;
                    assert(ps[j] == orig[k]);
                }
            }
            assert forall|id: ClientId| #[trigger] self.has_peer(id) <==> exists|k: int|
                0 <= k < orig.len() && orig[k].id_spec() == id && #[trigger] mask@[k] by {
                if self.has_peer(id) {
                    let a = choose|a: int| 0 <= a < ps.len() && (#[trigger] ps[a]).id_spec() == id;
                    assert(ps[a] == orig[idx[a]]);
                    assert(mask@[idx[a]]);
                }
                if exists|k: int| 0 <= k < orig.len() && orig[k].id_spec() == id && #[trigger] mask@[k] {
                    let k = choose|k: int| 0 <= k < orig.len() && orig[k].id_spec() == id && #[trigger] mask@[k];
                    let j = choose|j: int| 0 <= j < idx.len() && idx[j] == k;
                    assert(ps[j] == orig[k]);
                }
            }
        }
        let ghost mid = *self;
        self.keep_ips();
        proof {
            assert forall|id: ClientId| #[trigger] self.has_peer(id) == mid.has_peer(id) by {
                if mid.has_peer(id) {
                    let w = choose|w: int| 0 <= w < mid.peers().len() && (#[trigger] mid.peers()[w]).id_spec() == id;
                    assert(self.peers()[w].id_spec() == id);
                }
                if self.has_peer(id) {
                    let w = choose|w: int| 0 <= w < self.peers().len() && (#[trigger] self.peers()[w]).id_spec() == id;
                    assert(mid.peers()[w].id_spec() == id);
                }
            }
            assert forall|x: IpAddr| #[trigger] self.ip_owner(x) == match old_self.ip_owner(x) {
                Some(c) => if self.has_peer(c) { Some(c) } else { None },
                None => None,
            } by {}
        }
    }

    /// Drops the addresses of clients that are no longer present.
    fn keep_ips(&mut self)
        requires
            forall|i: int, j: int| 0 <= i < old(self).ip_index().len() && 0 <= j < old(self).ip_index().len() && i != j
                ==> (#[trigger] old(self).ip_index()[i]).0 != (#[trigger] old(self).ip_index()[j]).0,
        ensures
            final(self).peers() == old(self).peers(),
            forall|i: int, j: int| 0 <= i < final(self).ip_index().len() && 0 <= j < final(self).ip_index().len() && i != j
                ==> (#[trigger] final(self).ip_index()[i]).0 != (#[trigger] final(self).ip_index()[j]).0,
            forall|j: int| 0 <= j < final(self).ip_index().len() ==> final(self).has_peer((#[trigger] final(self).ip_index()[j]).1),
            forall|x: IpAddr| #[trigger] final(self).ip_owner(x) == match old(self).ip_owner(x) {
                Some(c) => if old(self).has_peer(c) { Some(c) } else { None },
                None => None,
            },
    {
        let ghost ix = self.ip_index();
        let mut out: Vec<(IpAddr, ClientId)> = Vec::new();
        let ghost mut idx: Seq<int> = Seq::empty();
        let mut i: usize = 0;
        while i < self.id_by_ip.len()
            invariant
                i <= ix.len(),
                ix == self.id_by_ip@,
                forall|a: int, b: int| 0 <= a < ix.len() && 0 <= b < ix.len() && a != b ==> (#[trigger] ix[a]).0 != (#[trigger] ix[b]).0,
                idx.len() == out@.len(),
                forall|j: int| 0 <= j < idx.len() ==> 0 <= #[trigger] idx[j] < i,
                forall|j: int| 0 <= j < idx.len() ==> out@[j] == ix[#[trigger] idx[j]] && self.has_peer(ix[idx[j]].1),
                forall|a: int, b: int| 0 <= a < b < idx.len() ==> #[trigger] idx[a] < #[trigger] idx[b],
                forall|k: int| 0 <= k < i && self.has_peer((#[trigger] ix[k]).1) ==> exists|j: int| 0 <= j < idx.len() && idx[j] == k,
            decreases self.id_by_ip.len() - i,
        {
            let e = self.id_by_ip[i];
            let ghost idx0 = idx;
            if self.index_of(e.1).is_some() {
                out.push(e);
                proof {
                    idx = idx.push(i as int);
                }
            }
            proof {
                assert forall|k: int| 0 <= k < i + 1 && self.has_peer((#[trigger] ix[k]).1) implies exists|j: int| 0 <= j < idx.len() && idx[j] == k by {
                    if k == i {
                        assert(idx[idx.len() - 1] == k);
                    } else {
                        let j = choose|j: int| 0 <= j < idx0.len() && idx0[j] == k;
                        assert(idx[j] == k);
                    }
                }
            }
            i = i + 1;
        }
        let ghost before = *self;
        self.id_by_ip = out;
        proof {
            let t = self.ip_index();
            assert forall|a: int, b: int| 0 <= a < t.len() && 0 <= b < t.len() && a != b
                implies (#[trigger] t[a]).0 != (#[trigger] t[b]).0 by {
                if a < b {
                    assert(idx[a] < idx[b]);
                } else {
                    assert(idx[b] < idx[a]);
                }
                assert(t[a] == ix[idx[a]] && t[b] == ix[idx[b]]);
            }
            assert(self.peers() == before.peers());
            assert forall|j: int| 0 <= j < t.len() implies self.has_peer((#[trigger] t[j]).1) by {
                assert(t[j] == ix[idx[j]]);
                let c = ix[idx[j]].1;
                assert(before.has_peer(c));
                let w = choose|w: int| 0 <= w < before.peers().len() && (#[trigger] before.peers()[w]).id_spec() == c;
                assert(self.peers()[w].id_spec() == c);
            }
            assert forall|x: IpAddr| #[trigger] self.ip_owner(x) == match before.ip_owner(x) {
                Some(c) => if before.has_peer(c) { Some(c) } else { None },
                None => None,
            } by {
                if exists|k: int| 0 <= k < ix.len() && (#[trigger] ix[k]).0 == x {
                    let k = choose|k: int| 0 <= k < ix.len() && (#[trigger] ix[k]).0 == x;
                    lemma_index_owner(ix, k);
                    if before.has_peer(ix[k].1) {
                        let j = choose|j: int| 0 <= j < idx.len() && idx[j] == k;
                        assert(t[j] == ix[k]);
                        lemma_index_owner(t, j);
                    } else {
                        assert forall|j: int| 0 <= j < t.len() implies (#[trigger] t[j]).0 != x by {
                            assert(t[j] == ix[idx[j]]);
                            if idx[j] != k {
                                assert(ix[idx[j]].0 != ix[k].0);
                            }
                        }
                    }
                } else {
                    assert forall|j: int| 0 <= j < t.len() implies (#[trigger] t[j]).0 != x by {
                        assert(t[j] == ix[idx[j]]);
                    }
                }
            }
        }
    }
}

/// With unique addresses, the owner of the address at position `k` is its entry's client.
proof fn lemma_index_owner(ix: Seq<(IpAddr, ClientId)>, k: int)
    requires
        0 <= k < ix.len(),
        forall|a: int, b: int| 0 <= a < ix.len() && 0 <= b < ix.len() && a != b ==> (#[trigger] ix[a]).0 != (#[trigger] ix[b]).0,
    ensures
        (exists|j: int| 0 <= j < ix.len() && (#[trigger] ix[j]).0 == ix[k].0),
        ix[choose|j: int| 0 <= j < ix.len() && (#[trigger] ix[j]).0 == ix[k].0].1 == ix[k].1,
{
    assert(ix[k].0 == ix[k].0);
    let c = choose|j: int| 0 <= j < ix.len() && (#[trigger] ix[j]).0 == ix[k].0;
    if c != k {
        assert(ix[c].0 != ix[k].0);
    }
}

} // verus!
