//! Grouping `(client, item)` pairs by client, each item once per client.
use crate::resource::{ClientId, ResourceId};
use vstd::prelude::*;

verus! {

/// The groups hold each client once, and for each client exactly the items paired with it
/// in `pairs`, each once.
pub open spec fn groups_ids(pairs: Seq<(ClientId, ResourceId)>, groups: Seq<(ClientId, Vec<ResourceId>)>) -> bool {
    &&& forall|a: int, b: int| 0 <= a < groups.len() && 0 <= b < groups.len() && a != b
        ==> (#[trigger] groups[a]).0 != (#[trigger] groups[b]).0
    &&& forall|g: int| 0 <= g < groups.len() ==> no_dup_ids((#[trigger] groups[g]).1@)
    &&& forall|g: int| 0 <= g < groups.len() ==> (#[trigger] groups[g]).1@.len() > 0
    &&& forall|c: ClientId, r: ResourceId| #[trigger] pairs.contains((c, r)) <==> exists|g: int|
        0 <= g < groups.len() && (#[trigger] groups[g]).0 == c && groups[g].1@.contains(r)
}

pub open spec fn no_dup_ids(s: Seq<ResourceId>) -> bool {
    forall|a: int, b: int| 0 <= a < s.len() && 0 <= b < s.len() && a != b ==> #[trigger] s[a] != #[trigger] s[b]
}

fn find_group<V>(groups: &Vec<(ClientId, Vec<V>)>, c: ClientId) -> (r: Option<usize>)
    ensures
        match r {
            Some(g) => g < groups@.len() && groups@[g as int].0 == c,
            None => forall|g: int| 0 <= g < groups@.len() ==> (#[trigger] groups@[g]).0 != c,
        },
{
    let mut g: usize = 0;
    while g < groups.len()
        invariant
            g <= groups@.len(),
            forall|k: int| 0 <= k < g ==> (#[trigger] groups@[k]).0 != c,
        decreases groups.len() - g,
    {
        if groups[g].0 == c {
            return Some(g);
        }
        g = g + 1;
    }
    None
}

fn contains_id(v: &Vec<ResourceId>, r: ResourceId) -> (b: bool)
    ensures
        b == v@.contains(r),
{
    let mut i: usize = 0;
    while i < v.len()
        invariant
            i <= v@.len(),
            forall|k: int| 0 <= k < i ==> v@[k] != r,
        decreases v.len() - i,
    {
        if v[i] == r {
            assert(v@[i as int] == r);
            return true;
        }
        i = i + 1;
    }
    false
}

/// Groups resource ids by client.
pub fn group_ids(pairs: &Vec<(ClientId, ResourceId)>) -> (r: Vec<(ClientId, Vec<ResourceId>)>)
    ensures
        groups_ids(pairs@, r@),
{
    let mut groups: Vec<(ClientId, Vec<ResourceId>)> = Vec::new();
    let mut i: usize = 0;
    while i < pairs.len()
        invariant
            i <= pairs@.len(),
            groups_ids(pairs@.take(i as int), groups@),
        decreases pairs.len() - i,
    {
        let (c, rid) = pairs[i];
        let ghost before = groups@;
        let ghost prefix = pairs@.take(i as int);
        assert(pairs@.take(i + 1) == prefix.push((c, rid)));
        match find_group(&groups, c) {
            Some(g) => {
                let (gc, mut items) = groups.remove(g);
                let ghost items0 = items@;
                if !contains_id(&items, rid) {
                    items.push(rid);
                }
                groups.insert(g, (gc, items));
                proof {
                    assert(groups@ =~= before.update(g as int, (gc, items)));
                    assert forall|x: ResourceId| #[trigger] items@.contains(x) <==> (items0.contains(x) || x == rid) by {
                        if items@.len() > items0.len() {
                            if items0.contains(x) {
                                let k = choose|k: int| 0 <= k < items0.len() && items0[k] == x;
                                assert(items@[k] == x);
                            }
                            if x == rid {
                                assert(items@[items0.len() as int] == x);
                            }
                            if items@.contains(x) {
                                let k = choose|k: int| 0 <= k < items@.len() && items@[k] == x;
                                if k < items0.len() {
                                    assert(items0[k] == x);
                                }
                            }
                        }
                    }
                    assert(no_dup_ids(items@)) by {
                        assert(no_dup_ids(before[g as int].1@));
                        if items@.len() > items0.len() {
                            assert forall|a: int, b: int| 0 <= a < items@.len() && 0 <= b < items@.len() && a != b
                                implies #[trigger] items@[a] != #[trigger] items@[b] by {
                                if a < items0.len() && b < items0.len() {
                                } else if a < items0.len() {
                                    assert(items0.contains(items@[a]));
                                } else {
                                    assert(items0.contains(items@[b]));
                                }
                            }
                        }
                    }
                    lemma_take_push_contains(prefix, (c, rid));
                    assert forall|a: int, b: int| 0 <= a < groups@.len() && 0 <= b < groups@.len() && a != b
                        implies (#[trigger] groups@[a]).0 != (#[trigger] groups@[b]).0 by {
                        assert(groups@[a].0 == before[a].0);
                        assert(groups@[b].0 == before[b].0);
                    }
                    assert forall|k: int| 0 <= k < groups@.len() implies no_dup_ids((#[trigger] groups@[k]).1@) by {
                        if k != g {
                            assert(groups@[k] == before[k]);
                        }
                    }
                    assert forall|k: int| 0 <= k < groups@.len() implies (#[trigger] groups@[k]).1@.len() > 0 by {
                        if k != g {
                            assert(groups@[k] == before[k]);
                        } else {
                            assert(before[k].1@.len() > 0);
                        }
                    }
                    assert forall|c2: ClientId, r2: ResourceId| #[trigger] pairs@.take(i + 1).contains((c2, r2))
                        <==> exists|k: int| 0 <= k < groups@.len() && (#[trigger] groups@[k]).0 == c2
                            && groups@[k].1@.contains(r2) by {
                        if prefix.contains((c2, r2)) {
                            let k = choose|k: int| 0 <= k < before.len() && (#[trigger] before[k]).0 == c2
                                && before[k].1@.contains(r2);
                            if k == g {
                                assert(groups@[k].1@.contains(r2));
                            } else {
                                assert(groups@[k] == before[k]);
                            }
                        }
                        if (c2, r2) == (c, rid) {
                            assert(groups@[g as int].1@.contains(r2));
                        }
                        if exists|k: int| 0 <= k < groups@.len() && (#[trigger] groups@[k]).0 == c2
                            && groups@[k].1@.contains(r2) {
                            let k = choose|k: int| 0 <= k < groups@.len() && (#[trigger] groups@[k]).0 == c2
                                && groups@[k].1@.contains(r2);
                            if k == g {
                                if r2 != rid {
                                    assert(before[k].1@.contains(r2));
                                }
                            } else {
                                assert(groups@[k] == before[k]);
                            }
                        }
                    }
                }
            },
            None => {
                let mut items: Vec<ResourceId> = Vec::new();
                items.push(rid);
                groups.push((c, items));
                proof {
                    lemma_take_push_contains(prefix, (c, rid));
                    assert(items@.contains(rid)) by {
                        assert(items@[0] == rid);
                    }
                    assert forall|a: int, b: int| 0 <= a < groups@.len() && 0 <= b < groups@.len() && a != b
                        implies (#[trigger] groups@[a]).0 != (#[trigger] groups@[b]).0 by {
                        if a < before.len() && b < before.len() {
                            assert(groups@[a] == before[a] && groups@[b] == before[b]);
                        } else if a < before.len() {
                            assert(groups@[a] == before[a]);
                        } else {
                            assert(groups@[b] == before[b]);
                        }
                    }
                    assert forall|k: int| 0 <= k < groups@.len() implies no_dup_ids((#[trigger] groups@[k]).1@) by {
                        if k < before.len() {
                            assert(groups@[k] == before[k]);
                        }
                    }
                    assert forall|k: int| 0 <= k < groups@.len() implies (#[trigger] groups@[k]).1@.len() > 0 by {
                        if k < before.len() {
                            assert(groups@[k] == before[k]);
                        }
                    }
                    assert forall|c2: ClientId, r2: ResourceId| #[trigger] pairs@.take(i + 1).contains((c2, r2))
                        <==> exists|k: int| 0 <= k < groups@.len() && (#[trigger] groups@[k]).0 == c2
                            && groups@[k].1@.contains(r2) by {
                        if prefix.contains((c2, r2)) {
                            let k = choose|k: int| 0 <= k < before.len() && (#[trigger] before[k]).0 == c2
                                && before[k].1@.contains(r2);
                            assert(groups@[k] == before[k]);
                        }
                        if (c2, r2) == (c, rid) {
                            assert(groups@[before.len() as int].1@.contains(r2));
                        }
                        if exists|k: int| 0 <= k < groups@.len() && (#[trigger] groups@[k]).0 == c2
                            && groups@[k].1@.contains(r2) {
                            let k = choose|k: int| 0 <= k < groups@.len() && (#[trigger] groups@[k]).0 == c2
                                && groups@[k].1@.contains(r2);
                            if k < before.len() {
                                assert(groups@[k] == before[k]);
                            } else {
                                assert(items@.contains(r2));
                                assert(items@.len() == 1);
                            }
                        }
                    }
                }
            },
        }
        i = i + 1;
    }
    assert(pairs@.take(pairs@.len() as int) == pairs@);
    groups
}

/// Client `c` has a group that holds a string with the characters `s`.
pub open spec fn group_has(groups: Seq<(ClientId, Vec<String>)>, c: ClientId, s: Seq<char>) -> bool {
    exists|g: int| 0 <= g < groups.len() && (#[trigger] groups[g]).0 == c && strings_contain(groups[g].1@, s)
}

pub open spec fn strings_contain(v: Seq<String>, s: Seq<char>) -> bool {
    exists|k: int| 0 <= k < v.len() && (#[trigger] v[k])@ == s
}

/// Some pair holds client `c` and a string with the characters `s`.
pub open spec fn sourced(pairs: Seq<(ClientId, String)>, c: ClientId, s: Seq<char>) -> bool {
    exists|i: int| 0 <= i < pairs.len() && (#[trigger] pairs[i]).0 == c && pairs[i].1@ == s
}

/// The groups hold each client once, and for each client exactly the strings paired with it.
pub open spec fn groups_strings(pairs: Seq<(ClientId, String)>, groups: Seq<(ClientId, Vec<String>)>) -> bool {
    &&& forall|a: int, b: int| 0 <= a < groups.len() && 0 <= b < groups.len() && a != b
        ==> (#[trigger] groups[a]).0 != (#[trigger] groups[b]).0
    &&& forall|i: int| 0 <= i < pairs.len() ==> group_has(groups, (#[trigger] pairs[i]).0, pairs[i].1@)
    &&& forall|g: int, k: int| #![trigger groups[g].1@[k]] 0 <= g < groups.len() && 0 <= k < groups[g].1@.len()
        ==> sourced(pairs, groups[g].0, groups[g].1@[k]@)
}

fn contains_string(v: &Vec<String>, s: &String) -> (b: bool)
    ensures
        b == strings_contain(v@, s@),
{
    let mut i: usize = 0;
    while i < v.len()
        invariant
            i <= v@.len(),
            forall|k: int| 0 <= k < i ==> (#[trigger] v@[k])@ != s@,
        decreases v.len() - i,
    {
        if v[i] == *s {
            assert(v@[i as int]@ == s@);
            return true;
        }
        i = i + 1;
    }
    false
}

/// Groups strings by client, each string once per client, in the order clients first appear.
pub fn group_strings(pairs: &Vec<(ClientId, String)>) -> (r: Vec<(ClientId, Vec<String>)>)
    ensures
        groups_strings(pairs@, r@),
{
    let mut groups: Vec<(ClientId, Vec<String>)> = Vec::new();
    let mut i: usize = 0;
    while i < pairs.len()
        invariant
            i <= pairs@.len(),
            groups_strings(pairs@.take(i as int), groups@),
        decreases pairs.len() - i,
    {
        let c = pairs[i].0;
        let s = pairs[i].1.clone();
        let ghost before = groups@;
        let ghost prefix = pairs@.take(i as int);
        let ghost next = pairs@.take(i + 1);
        assert(next == prefix.push(pairs@[i as int]));
        match find_group(&groups, c) {
            Some(g) => {
                let (gc, mut items) = groups.remove(g);
                let ghost items0 = items@;
                if !contains_string(&items, &s) {
                    items.push(s);
                }
                groups.insert(g, (gc, items));
                proof {
                    assert(groups@ =~= before.update(g as int, (gc, items)));
                    assert(strings_contain(items@, pairs@[i as int].1@)) by {
                        if items@.len() > items0.len() {
                            assert(items@[items0.len() as int]@ == pairs@[i as int].1@);
                        }
                    }
                    assert forall|k: int| 0 <= k < items0.len() implies #[trigger] items@[k] == items0[k] by {}
                    assert forall|a: int, b: int| 0 <= a < groups@.len() && 0 <= b < groups@.len() && a != b
                        implies (#[trigger] groups@[a]).0 != (#[trigger] groups@[b]).0 by {
                        assert(groups@[a].0 == before[a].0);
                        assert(groups@[b].0 == before[b].0);
                    }
                    assert forall|j: int| 0 <= j < next.len() implies group_has(groups@, (#[trigger] next[j]).0, next[j].1@) by {
                        if j == i {
                            assert(groups@[g as int].0 == c);
                        } else {
                            assert(next[j] == prefix[j]);
                            assert(group_has(before, prefix[j].0, prefix[j].1@));
                            let h = choose|h: int| 0 <= h < before.len() && (#[trigger] before[h]).0 == prefix[j].0
                                && strings_contain(before[h].1@, prefix[j].1@);
                            if h == g {
                                let k = choose|k: int| 0 <= k < before[h].1@.len() && (#[trigger] before[h].1@[k])@ == prefix[j].1@;
                                assert(items@[k] == items0[k]);
                                assert(strings_contain(groups@[h].1@, prefix[j].1@));
                            } else {
                                assert(groups@[h] == before[h]);
                            }
                        }
                    }
                    assert forall|h: int, k: int| #![trigger groups@[h].1@[k]] 0 <= h < groups@.len() && 0 <= k < groups@[h].1@.len()
                        implies sourced(next, groups@[h].0, groups@[h].1@[k]@) by {
                        if h == g && k >= items0.len() {
                            assert(next[i as int].0 == groups@[h].0);
                        } else {
                            if h == g {
                                assert(groups@[h].1@[k] == before[h].1@[k]);
                            } else {
                                assert(groups@[h] == before[h]);
                            }
                            assert(sourced(prefix, before[h].0, before[h].1@[k]@));
                            let j = choose|j: int| 0 <= j < prefix.len() && (#[trigger] prefix[j]).0 == before[h].0
                                && prefix[j].1@ == before[h].1@[k]@;
                            assert(next[j] == prefix[j]);
                        }
                    }

                }
            },
            None => {
                let mut items: Vec<String> = Vec::new();
                items.push(s);
                groups.push((c, items));
                proof {
                    assert(items@[0]@ == pairs@[i as int].1@);
                    assert forall|a: int, b: int| 0 <= a < groups@.len() && 0 <= b < groups@.len() && a != b
                        implies (#[trigger] groups@[a]).0 != (#[trigger] groups@[b]).0 by {
                        if a < before.len() && b < before.len() {
                            assert(groups@[a] == before[a] && groups@[b] == before[b]);
                        } else if a < before.len() {
                            assert(groups@[a] == before[a]);
                        } else {
                            assert(groups@[b] == before[b]);
                        }
                    }
                    assert forall|j: int| 0 <= j < next.len() implies group_has(groups@, (#[trigger] next[j]).0, next[j].1@) by {
                        if j == i {
                            assert(groups@[before.len() as int].0 == c);
                            assert(strings_contain(groups@[before.len() as int].1@, next[j].1@));
                        } else {
                            assert(next[j] == prefix[j]);
                            assert(group_has(before, prefix[j].0, prefix[j].1@));
                            let h = choose|h: int| 0 <= h < before.len() && (#[trigger] before[h]).0 == prefix[j].0
                                && strings_contain(before[h].1@, prefix[j].1@);
                            assert(groups@[h] == before[h]);
                        }
                    }
                    assert forall|h: int, k: int| #![trigger groups@[h].1@[k]] 0 <= h < groups@.len() && 0 <= k < groups@[h].1@.len()
                        implies sourced(next, groups@[h].0, groups@[h].1@[k]@) by {
                        if h == before.len() {
                            assert(next[i as int].0 == groups@[h].0);
                        } else {
                            assert(groups@[h] == before[h]);
                            assert(sourced(prefix, before[h].0, before[h].1@[k]@));
                            let j = choose|j: int| 0 <= j < prefix.len() && (#[trigger] prefix[j]).0 == before[h].0
                                && prefix[j].1@ == before[h].1@[k]@;
                            assert(next[j] == prefix[j]);
                        }
                    }

                }
            },
        }
        i = i + 1;
    }
    assert(pairs@.take(pairs@.len() as int) == pairs@);
    groups
}

/// The groups are in ascending order of client id.
pub open spec fn ascending_clients<V>(groups: Seq<(ClientId, V)>) -> bool {
    forall|a: int, b: int| 0 <= a < b < groups.len() ==> (#[trigger] groups[a]).0.0 < (#[trigger] groups[b]).0.0
}

/// Sorts groups by client id; the groups themselves stay as they are.
pub fn sort_by_client(groups: Vec<(ClientId, Vec<String>)>) -> (r: Vec<(ClientId, Vec<String>)>)
    requires
        forall|a: int, b: int| 0 <= a < groups@.len() && 0 <= b < groups@.len() && a != b
            ==> (#[trigger] groups@[a]).0 != (#[trigger] groups@[b]).0,
    ensures
        ascending_clients(r@),
        forall|x: (ClientId, Vec<String>)| #[trigger] r@.contains(x) <==> groups@.contains(x),
{
    let ghost orig = groups@;
    let mut rest = groups;
    let n = rest.len();
    let mut out: Vec<(ClientId, Vec<String>)> = Vec::new();
    let mut i: usize = 0;
    while rest.len() > 0
        invariant
            i <= n,
            n == orig.len(),
            rest@ == orig.skip(i as int),
            ascending_clients(out@),
            forall|a: int, b: int| 0 <= a < orig.len() && 0 <= b < orig.len() && a != b
                ==> (#[trigger] orig[a]).0 != (#[trigger] orig[b]).0,
            forall|x: (ClientId, Vec<String>)| #[trigger] out@.contains(x) <==> orig.take(i as int).contains(x),
        decreases rest.len(),
    {
        let e = rest.remove(0);
        assert(e == orig[i as int]);
        let ghost o = out@;
        proof {
            assert(orig.take(i + 1) == orig.take(i as int).push(e));
            lemma_take_push_contains(orig.take(i as int), e);
        }
        let mut p: usize = 0;
        while p < out.len() && out[p].0.0 < e.0.0
            invariant
                p <= out@.len(),
                out@ == o,
                forall|j: int| 0 <= j < p ==> (#[trigger] o[j]).0.0 < e.0.0,
            decreases out.len() - p,
        {
            p = p + 1;
        }
        let ghost ev = e;
        out.insert(p, e);
        proof {
            let nw = out@;
            assert(nw =~= o.insert(p as int, ev));
            if p < o.len() {
                assert(o.contains(o[p as int]));
                assert(orig.take(i as int).contains(o[p as int]));
                let m = choose|m: int| 0 <= m < orig.take(i as int).len() && orig.take(i as int)[m] == o[p as int];
                assert(orig[m] == o[p as int]);
                assert(orig[m].0 != orig[i as int].0);
                assert(o[p as int].0.0 > ev.0.0);
            }
            assert forall|a: int, b: int| 0 <= a < b < nw.len() implies (#[trigger] nw[a]).0.0 < (#[trigger] nw[b]).0.0 by {
                if b < p {
                    assert(nw[a] == o[a] && nw[b] == o[b]);
                } else if b == p {
                    assert(nw[a] == o[a]);
                } else if a < p {
                    assert(nw[a] == o[a] && nw[b] == o[b - 1]);
                    if b - 1 > p {
                        assert(o[p as int].0.0 < o[b - 1].0.0);
                    }
                } else if a == p {
                    assert(nw[b] == o[b - 1]);
                    if b - 1 > p {
                        assert(o[p as int].0.0 < o[b - 1].0.0);
                    }
                } else {
                    assert(nw[a] == o[a - 1] && nw[b] == o[b - 1]);
                }
            }
            assert forall|y: (ClientId, Vec<String>)| #[trigger] nw.contains(y) <==> (o.contains(y) || y == ev) by {
                if o.contains(y) {
                    let j = choose|j: int| 0 <= j < o.len() && o[j] == y;
                    if j < p {
                        assert(nw[j] == y);
                    } else {
                        assert(nw[j + 1] == y);
                    }
                }
                if y == ev {
                    assert(nw[p as int] == y);
                }
                if nw.contains(y) {
                    let j = choose|j: int| 0 <= j < nw.len() && nw[j] == y;
                    if j < p {
                        assert(o[j] == y);
                    } else if j > p {
                        assert(o[j - 1] == y);
                    }
                }
            }
            assert(rest@ =~= orig.skip(i + 1));
        }
        i = i + 1;
    }
    assert(orig.take(n as int) =~= orig);
    out
}

/// Reordering groups keeps what they hold.
pub proof fn lemma_groups_reordered(pairs: Seq<(ClientId, String)>, a: Seq<(ClientId, Vec<String>)>, b: Seq<(ClientId, Vec<String>)>)
    requires
        groups_strings(pairs, a),
        ascending_clients(b),
        forall|x: (ClientId, Vec<String>)| #[trigger] b.contains(x) <==> a.contains(x),
    ensures
        groups_strings(pairs, b),
{
    assert forall|x: int, y: int| 0 <= x < b.len() && 0 <= y < b.len() && x != y implies (#[trigger] b[x]).0 != (#[trigger] b[y]).0 by {
        if x < y {
            assert(b[x].0.0 < b[y].0.0);
        } else {
            assert(b[y].0.0 < b[x].0.0);
        }
    }
    assert forall|i: int| 0 <= i < pairs.len() implies group_has(b, (#[trigger] pairs[i]).0, pairs[i].1@) by {
        assert(group_has(a, pairs[i].0, pairs[i].1@));
        let g = choose|g: int| 0 <= g < a.len() && (#[trigger] a[g]).0 == pairs[i].0 && strings_contain(a[g].1@, pairs[i].1@);
        assert(a.contains(a[g]));
        assert(b.contains(a[g]));
        let h = choose|h: int| 0 <= h < b.len() && b[h] == a[g];
        assert(b[h].0 == pairs[i].0);
    }
    assert forall|g: int, k: int| #![trigger b[g].1@[k]] 0 <= g < b.len() && 0 <= k < b[g].1@.len()
        implies sourced(pairs, b[g].0, b[g].1@[k]@) by {
        assert(b.contains(b[g]));
        assert(a.contains(b[g]));
        let h = choose|h: int| 0 <= h < a.len() && a[h] == b[g];
        assert(a[h].1@[k] == b[g].1@[k]);
    }
}

proof fn lemma_take_push_contains<A>(s: Seq<A>, x: A)
    ensures
        forall|y: A| #[trigger] s.push(x).contains(y) <==> (s.contains(y) || y == x),
{
    assert forall|y: A| #[trigger] s.push(x).contains(y) <==> (s.contains(y) || y == x) by {
        let t = s.push(x);
        if s.contains(y) {
            let j = choose|j: int| 0 <= j < s.len() && s[j] == y;
            assert(t[j] == y);
        }
        if y == x {
            assert(t[s.len() as int] == y);
        }
        if t.contains(y) {
            let j = choose|j: int| 0 <= j < t.len() && t[j] == y;
            if j < s.len() {
                assert(s[j] == y);
            }
        }
    }
}

} // verus!
