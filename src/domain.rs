//! Matching a domain name against the address pattern of a DNS resource.
use vstd::prelude::*;
use vstd::utf8::encode_utf8;

verus! {

pub open spec fn ascii_lower(c: u8) -> u8 {
    if 65 <= c <= 90 {
        (c + 32) as u8
    } else {
        c
    }
}

/// The bytes of a name, with ASCII letters folded to lower case.
pub open spec fn folded(s: Seq<char>) -> Seq<u8> {
    encode_utf8(s).map_values(|c: u8| ascii_lower(c))
}

pub open spec fn ends_with(s: Seq<u8>, suffix: Seq<u8>) -> bool {
    s.len() >= suffix.len() && s.subrange(s.len() - suffix.len(), s.len() as int) == suffix
}

/// `name` is `base`, or a name below it: `base` preceded by a non-empty run of
/// labels and a dot. With `single`, that run holds exactly one label.
pub open spec fn below_or_at(name: Seq<u8>, base: Seq<u8>, single: bool) -> bool {
    name == base || {
        &&& name.len() > base.len() + 1
        &&& ends_with(name, base)
        &&& name[name.len() - base.len() - 1] == 46u8
        &&& single ==> forall|i: int| 0 <= i < name.len() - base.len() - 1 ==> name[i] != 46u8
    }
}

/// Whether a (folded) name matches a (folded) pattern: `*.base` takes `base` and every
/// name below it, `?.base` takes `base` and the names one label below it, and any other
/// pattern takes exactly itself.
pub open spec fn matches_pattern(name: Seq<u8>, pat: Seq<u8>) -> bool {
    if pat.len() >= 2 && pat[0] == 42u8 && pat[1] == 46u8 {
        below_or_at(name, pat.subrange(2, pat.len() as int), false)
    } else if pat.len() >= 2 && pat[0] == 63u8 && pat[1] == 46u8 {
        below_or_at(name, pat.subrange(2, pat.len() as int), true)
    } else {
        name == pat
    }
}

pub open spec fn is_subdomain_spec(name: Seq<char>, pattern: Seq<char>) -> bool {
    matches_pattern(folded(name), folded(pattern))
}

fn fold_bytes(s: &str) -> (r: Vec<u8>)
    ensures
        r@ == folded(s@),
{
    let b = s.as_bytes();
    let mut out: Vec<u8> = Vec::new();
    let mut i: usize = 0;
    while i < b.len()
        invariant
            i <= b@.len(),
            b@ == encode_utf8(s@),
            out@ == b@.take(i as int).map_values(|c: u8| ascii_lower(c)),
        decreases b.len() - i,
    {
        let c = b[i];
        let l = if 65 <= c && c <= 90 { c + 32 } else { c };
        out.push(l);
        assert(b@.take(i + 1) == b@.take(i as int).push(c));
        i = i + 1;
    }
    assert(b@.take(b@.len() as int) == b@);
    out
}

fn ends_with_exec(s: &Vec<u8>, suffix: &Vec<u8>, from: usize) -> (r: bool)
    requires
        from <= suffix@.len(),
    ensures
        r == ends_with(s@, suffix@.subrange(from as int, suffix@.len() as int)),
{
    let n = suffix.len() - from;
    if s.len() < n {
        return false;
    }
    let off = s.len() - n;
    let mut i: usize = 0;
    while i < n
        invariant
            n == suffix@.len() - from,
            off == s@.len() - n,
            off + n == s.len(),
            from + n == suffix.len(),
            i <= n,
            forall|j: int| 0 <= j < i ==> #[trigger] s@[off + j] == suffix@[from + j],
        decreases n - i,
    {
        if s[off + i] != suffix[from + i] {
            assert(s@.subrange(off as int, s@.len() as int)[i as int] != suffix@.subrange(from as int, suffix@.len() as int)[i as int]);
            return false;
        }
        i = i + 1;
    }
    assert forall|j: int| 0 <= j < n implies #[trigger] s@.subrange(off as int, s@.len() as int)[j]
        == suffix@.subrange(from as int, suffix@.len() as int)[j] by {
        assert(s@[off + j] == suffix@[from + j]);
    }
    assert(s@.subrange(off as int, s@.len() as int) =~= suffix@.subrange(from as int, suffix@.len() as int));
    true
}

fn below_or_at_exec(name: &Vec<u8>, pat: &Vec<u8>, single: bool) -> (r: bool)
    requires
        pat@.len() >= 2,
    ensures
        r == below_or_at(name@, pat@.subrange(2, pat@.len() as int), single),
{
    let ghost base = pat@.subrange(2, pat@.len() as int);
    let base_len = pat.len() - 2;
    if name.len() == base_len && ends_with_exec(name, pat, 2) {
        assert(name@.subrange(0, name@.len() as int) =~= name@);
        return true;
    }
    if name.len() == base_len {
        assert(name@.subrange(0, name@.len() as int) =~= name@);
    }
    if !(name.len() > base_len + 1) || !ends_with_exec(name, pat, 2) {
        return false;
    }
    let dot = name.len() - base_len - 1;
    if name[dot] != 46u8 {
        return false;
    }
    if !single {
        return true;
    }
    let mut i: usize = 0;
    while i < dot
        invariant
            dot == name@.len() - base.len() - 1,
            base == pat@.subrange(2, pat@.len() as int),
            name@.len() > base.len() + 1,
            single,
            i <= dot,
            forall|j: int| 0 <= j < i ==> name@[j] != 46u8,
        decreases dot - i,
    {
        if name[i] == 46u8 {
            assert(name@.len() != base.len());
            assert(name@[i as int] == 46u8);
            return false;
        }
        i = i + 1;
    }
    true
}

/// Whether `name` falls under the address pattern of a DNS resource, ignoring ASCII case.
pub fn is_subdomain(name: &str, pattern: &str) -> (r: bool)
    ensures
        r == is_subdomain_spec(name@, pattern@),
{
    let n = fold_bytes(name);
    let p = fold_bytes(pattern);
    if p.len() >= 2 && p[0] == 42u8 && p[1] == 46u8 {
        below_or_at_exec(&n, &p, false)
    } else if p.len() >= 2 && p[0] == 63u8 && p[1] == 46u8 {
        below_or_at_exec(&n, &p, true)
    } else {
        bytes_eq(&n, &p)
    }
}

fn bytes_eq(a: &Vec<u8>, b: &Vec<u8>) -> (r: bool)
    ensures
        r == (a@ == b@),
{
    if a.len() != b.len() {
        return false;
    }
    let mut i: usize = 0;
    while i < a.len()
        invariant
            a@.len() == b@.len(),
            i <= a@.len(),
            forall|j: int| 0 <= j < i ==> a@[j] == b@[j],
        decreases a.len() - i,
    {
        if a[i] != b[i] {
            return false;
        }
        i = i + 1;
    }
    assert(a@ =~= b@);
    true
}

} // verus!
