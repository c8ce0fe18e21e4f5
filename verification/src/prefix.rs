//! The prefix data model: an address family, a fixed-width network address
//! and a prefix length, together with the bit-level coverage relation that
//! the reduction engine is specified against.

use vstd::prelude::*;

verus! {

/// Number of address bits of a family: 32 for IPv4, 128 for IPv6.
pub open spec fn fam_width(v6: bool) -> u8 {
    if v6 { 128 } else { 32 }
}

/// A network prefix: `addr` holds the network address left-aligned in the
/// family's bit width (the low 32 bits for IPv4), `len` the prefix length.
#[derive(Clone, Copy, Debug, PartialEq, Eq, PartialOrd, Ord, Hash, Structural)]
pub struct Prefix {
    pub v6: bool,
    pub addr: u128,
    pub len: u8,
}

impl Prefix {
    /// Address bit `i`, counting from the most significant bit of the
    /// family's address width.
    pub open spec fn bit(self, i: int) -> bool
        recommends
            0 <= i < fam_width(self.v6),
    {
        (self.addr >> ((fam_width(self.v6) - 1 - i) as u128)) & 1 == 1
    }

    /// A valid prefix: the length fits the family, an IPv4 address occupies
    /// only the low 32 bits, and all bits past the prefix length are zero
    /// (the address is a network address, not a host address).
    pub open spec fn wf(self) -> bool {
        &&& self.len <= fam_width(self.v6)
        &&& (!self.v6 ==> self.addr < 0x1_0000_0000)
        &&& forall|i: int| self.len <= i < fam_width(self.v6) ==> !self.bit(i)
    }

    /// A host prefix stands for a single address: its length is the full
    /// width of the family.
    pub open spec fn is_host(self) -> bool {
        self.len == fam_width(self.v6)
    }

    /// `self` covers `other`: same family, `self` no longer, and `other`
    /// agrees with `self` on all of `self`'s prefix bits. Every address in
    /// `other`'s block then lies in `self`'s block.
    pub open spec fn covers(self, other: Prefix) -> bool {
        &&& self.v6 == other.v6
        &&& self.len <= other.len
        &&& forall|i: int| 0 <= i < self.len ==> self.bit(i) == other.bit(i)
    }

    /// A strict cover: `self` covers `other` and is strictly broader.
    pub open spec fn strictly_covers(self, other: Prefix) -> bool {
        self.covers(other) && self.len < other.len
    }

    /// `self`'s block contains `other`'s network address (no constraint
    /// between the two lengths).
    pub open spec fn contains_addr(self, other: Prefix) -> bool {
        &&& self.v6 == other.v6
        &&& forall|i: int| 0 <= i < self.len ==> self.bit(i) == other.bit(i)
    }

    /// The family's address width in bits.
    pub fn max_len(&self) -> (w: u8)
        ensures
            w == fam_width(self.v6),
    {
        if self.v6 { 128 } else { 32 }
    }

    /// Reads address bit `i` (most significant bit first).
    pub fn bit_at(&self, i: u8) -> (b: bool)
        requires
            i < fam_width(self.v6),
        ensures
            b == self.bit(i as int),
    {
        let w: u8 = if self.v6 { 128 } else { 32 };
        let sh: u128 = (w - 1 - i) as u128;
        (self.addr >> sh) & 1 == 1
    }

    /// Decides whether `self`'s block contains `other`'s network address:
    /// same family and agreement on all of `self`'s prefix bits.
    pub fn contains_addr_of(&self, other: &Prefix) -> (r: bool)
        requires
            self.wf(),
            other.wf(),
        ensures
            r == self.contains_addr(*other),
    {
        if self.v6 != other.v6 {
            return false;
        }
        let mut j: u8 = 0;
        while j < self.len
            invariant
                j <= self.len,
                self.wf(),
                other.wf(),
                self.v6 == other.v6,
                forall|i: int| 0 <= i < j ==> self.bit(i) == other.bit(i),
            decreases self.len - j,
        {
            if self.bit_at(j) != other.bit_at(j) {
                return false;
            }
            j += 1;
        }
        true
    }
}

/// `p` is an entry of `pool` that no entry of `pool` strictly covers: it
/// survives the reduction of `pool`.
pub open spec fn survives(p: Prefix, pool: Seq<Prefix>) -> bool {
    &&& pool.contains(p)
    &&& forall|j: int| 0 <= j < pool.len() ==> !(#[trigger] pool[j]).strictly_covers(p)
}

/// The minimal equivalent set of `pool`: the entries that survive.
pub open spec fn reduced_set(pool: Seq<Prefix>) -> Set<Prefix> {
    Set::new(|p: Prefix| survives(p, pool))
}

impl Prefix {
    /// The prefix one bit longer than `self` whose next address bit is `b`.
    pub open spec fn child(self, b: bool) -> Prefix
        recommends
            self.wf(),
            self.len < fam_width(self.v6),
    {
        Prefix {
            v6: self.v6,
            addr: if b {
                self.addr | (1u128 << ((fam_width(self.v6) - 1 - self.len) as u128))
            } else {
                self.addr
            },
            len: (self.len + 1) as u8,
        }
    }

    /// The prefix made of the first `d` address bits of `self`.
    pub open spec fn ancestor(self, d: int) -> Prefix
        recommends
            self.wf(),
            0 <= d <= self.len,
        decreases d,
    {
        if d <= 0 {
            Prefix { v6: self.v6, addr: 0, len: 0 }
        } else {
            self.ancestor(d - 1).child(self.bit(d - 1))
        }
    }
}

proof fn lemma_shr_ext(a: u128, b: u128, n: u8)
    requires
        n <= 128,
        forall|i: u8| n <= i < 128 ==> #[trigger] ((a >> (i as u128)) & 1) == (b >> (i as u128))
            & 1,
    ensures
        (a >> (n as u128)) == (b >> (n as u128)),
    decreases 128 - n,
{
    if n == 128 {
        assert(a >> 128u128 == 0 && b >> 128u128 == 0) by (bit_vector);
    } else {
        lemma_shr_ext(a, b, (n + 1) as u8);
        let m = n as u128;
        assert(((a >> (n + 1) as u8 as u128) & 1) == ((b >> (n + 1) as u8 as u128) & 1));
        assert((n + 1) as u8 as u128 == m + 1);
        assert((a >> ((m + 1) as u128)) == (b >> ((m + 1) as u128)) && ((a >> m) & 1) == ((b
            >> m) & 1) ==> (a >> m) == (b >> m)) by (bit_vector);
        assert(((a >> (n as u128)) & 1) == ((b >> (n as u128)) & 1));
    }
}

/// Two valid prefixes of the same family and length with the same prefix
/// bits are the same value: a network address is determined by its bits.
pub proof fn lemma_bits_determine(p: Prefix, q: Prefix)
    requires
        p.wf(),
        q.wf(),
        p.v6 == q.v6,
        p.len == q.len,
        forall|i: int| 0 <= i < p.len ==> p.bit(i) == q.bit(i),
    ensures
        p == q,
{
    let a = p.addr;
    let b = q.addr;
    let w = fam_width(p.v6);
    assert forall|j: u8| 0 <= j < 128 implies #[trigger] ((a >> (j as u128)) & 1) == (b >> (
    j as u128)) & 1 by {
        if j < w {
            let i: int = w - 1 - j;
            assert(p.bit(i) == q.bit(i));
            let s = (w - 1 - i) as u128;
            assert(s == j as u128);
            assert((((a >> s) & 1 == 1) <==> ((b >> s) & 1 == 1)) ==> ((a >> s) & 1) == ((b
                >> s) & 1)) by (bit_vector);
        } else {
            let jj = j as u128;
            assert(a < 0x1_0000_0000 && jj >= 32 ==> (a >> jj) & 1 == 0) by (bit_vector);
            assert(b < 0x1_0000_0000 && jj >= 32 ==> (b >> jj) & 1 == 0) by (bit_vector);
        }
    }
    lemma_shr_ext(a, b, 0);
    assert(a >> 0u128 == a && b >> 0u128 == b) by (bit_vector);
}

/// Extending a prefix by one bit keeps its old bits, sets the new bit as
/// asked, and yields a valid prefix again.
pub proof fn lemma_child_ok(p: Prefix, b: bool)
    requires
        p.wf(),
        p.len < fam_width(p.v6),
    ensures
        p.child(b).wf(),
        p.child(b).v6 == p.v6,
        p.child(b).len == p.len + 1,
        p.child(b).bit(p.len as int) == b,
        forall|i: int| 0 <= i < p.len ==> p.child(b).bit(i) == p.bit(i),
{
    let w = fam_width(p.v6);
    let c = p.child(b);
    let sh = (w - 1 - p.len) as u128;
    let a = p.addr;
    if b {
        let m = 1u128 << sh;
        assert(sh < 32 ==> m < 0x1_0000_0000) by (bit_vector)
            requires
                m == 1u128 << sh,
        ;
        assert(a < 0x1_0000_0000 && m < 0x1_0000_0000 ==> (a | m) < 0x1_0000_0000)
            by (bit_vector);
        assert forall|i: int| 0 <= i < w && i != p.len implies c.bit(i) == p.bit(i) by {
            let s = (w - 1 - i) as u128;
            assert(s != sh && s < 128 && sh < 128 ==> ((a | m) >> s) & 1 == (a >> s) & 1)
                by (bit_vector)
                requires
                    m == 1u128 << sh,
            ;
        }
        assert(sh < 128 ==> ((a | m) >> sh) & 1 == 1) by (bit_vector)
            requires
                m == 1u128 << sh,
        ;
        assert(c.bit(p.len as int));
    } else {
        assert forall|i: int| 0 <= i < w implies c.bit(i) == p.bit(i) by {
            assert(c.addr == p.addr && c.v6 == p.v6);
        }
        assert(!p.bit(p.len as int));
    }
}

/// Basic facts about the `d`-bit ancestor of a valid prefix: it is valid,
/// `d` bits long, agrees with the prefix on those bits, and covers it.
pub proof fn lemma_ancestor_ok(p: Prefix, d: int)
    requires
        p.wf(),
        0 <= d <= p.len,
    ensures
        p.ancestor(d).wf(),
        p.ancestor(d).v6 == p.v6,
        p.ancestor(d).len == d,
        forall|i: int| 0 <= i < d ==> p.ancestor(d).bit(i) == p.bit(i),
        p.ancestor(d).covers(p),
    decreases d,
{
    if d == 0 {
        let r = p.ancestor(0);
        assert forall|i: int| 0 <= i < fam_width(r.v6) implies !r.bit(i) by {
            let s = (fam_width(r.v6) - 1 - i) as u128;
            assert((0u128 >> s) & 1 == 0) by (bit_vector);
        }
    } else {
        lemma_ancestor_ok(p, d - 1);
        lemma_child_ok(p.ancestor(d - 1), p.bit(d - 1));
    }
}

/// A prefix is its own full-length ancestor.
pub proof fn lemma_ancestor_full(p: Prefix)
    requires
        p.wf(),
    ensures
        p.ancestor(p.len as int) == p,
{
    lemma_ancestor_ok(p, p.len as int);
    lemma_bits_determine(p.ancestor(p.len as int), p);
}

/// Coverage is transitive.
pub proof fn lemma_covers_trans(a: Prefix, b: Prefix, c: Prefix)
    requires
        a.covers(b),
        b.covers(c),
    ensures
        a.covers(c),
{
    assert forall|i: int| 0 <= i < a.len implies a.bit(i) == c.bit(i) by {
        assert(a.bit(i) == b.bit(i));
        assert(b.bit(i) == c.bit(i));
    }
}

/// Every entry of the pool is covered by some survivor: whatever was
/// discarded is represented by a broader entry that was kept.
pub proof fn lemma_survivor_covers(pool: Seq<Prefix>, p: Prefix)
    requires
        pool.contains(p),
    ensures
        exists|q: Prefix| reduced_set(pool).contains(q) && q.covers(p),
    decreases p.len,
{
    if survives(p, pool) {
        assert(reduced_set(pool).contains(p) && p.covers(p));
    } else {
        let j = choose|j: int| 0 <= j < pool.len() && pool[j].strictly_covers(p);
        let q0 = pool[j];
        assert(pool.contains(q0));
        lemma_survivor_covers(pool, q0);
        let q = choose|q: Prefix| reduced_set(pool).contains(q) && q.covers(q0);
        lemma_covers_trans(q, q0, p);
        assert(reduced_set(pool).contains(q) && q.covers(p));
    }
}

/// Sequences with the same multiset hold the same elements.
pub proof fn lemma_multiset_same_contains<A>(s1: Seq<A>, s2: Seq<A>)
    requires
        s1.to_multiset() == s2.to_multiset(),
    ensures
        forall|x: A| s1.contains(x) <==> s2.contains(x),
{
    broadcast use vstd::seq_lib::group_to_multiset_ensures;

    assert forall|x: A| s1.contains(x) <==> s2.contains(x) by {
        assert(s1.contains(x) <==> s1.to_multiset().count(x) > 0);
        assert(s2.contains(x) <==> s2.to_multiset().count(x) > 0);
    }
}

/// Membership in a sequence extended by one element.
pub proof fn lemma_push_contains<A>(s: Seq<A>, p: A, x: A)
    ensures
        s.push(p).contains(x) <==> (s.contains(x) || x == p),
{
    if s.contains(x) {
        let i = choose|i: int| 0 <= i < s.len() && s[i] == x;
        assert(s.push(p)[i] == x);
    }
    assert(s.push(p)[s.len() as int] == p);
    if s.push(p).contains(x) {
        let i = choose|i: int| 0 <= i < s.push(p).len() && s.push(p)[i] == x;
        if i < s.len() {
            assert(s[i] == x);
        }
    }
}

/// Appending an entry at least as long as everything in the pool either
/// leaves the surviving set unchanged (when a survivor strictly covers it)
/// or adds exactly that entry.
pub proof fn lemma_reduce_step(s: Seq<Prefix>, p: Prefix)
    requires
        forall|j: int| 0 <= j < s.len() ==> (#[trigger] s[j]).len <= p.len,
    ensures
        (exists|q: Prefix| reduced_set(s).contains(q) && q.strictly_covers(p)) ==> reduced_set(
            s.push(p),
        ) == reduced_set(s),
        !(exists|q: Prefix| reduced_set(s).contains(q) && q.strictly_covers(p)) ==> reduced_set(
            s.push(p),
        ) == reduced_set(s).insert(p),
{
    let s2 = s.push(p);
    assert forall|x: Prefix| x != p implies (survives(x, s2) <==> survives(x, s)) by {
        if s.contains(x) {
            let i = choose|i: int| 0 <= i < s.len() && s[i] == x;
            assert(s2[i] == x);
            assert(s2.contains(x));
            if survives(x, s) {
                assert forall|j: int| 0 <= j < s2.len() implies !(#[trigger] s2[j]).strictly_covers(
                    x,
                ) by {
                    if j < s.len() {
                        assert(s2[j] == s[j]);
                    } else {
                        assert(s2[j] == p);
                        assert(x.len <= p.len);
                    }
                }
            } else {
                let j = choose|j: int| 0 <= j < s.len() && s[j].strictly_covers(x);
                assert(s2[j] == s[j]);
            }
        } else {
            assert(!s2.contains(x)) by {
                if s2.contains(x) {
                    let i = choose|i: int| 0 <= i < s2.len() && s2[i] == x;
                    assert(s2[i] == s[i]);
                }
            }
        }
    }
    if exists|q: Prefix| reduced_set(s).contains(q) && q.strictly_covers(p) {
        let q = choose|q: Prefix| reduced_set(s).contains(q) && q.strictly_covers(p);
        let i = choose|i: int| 0 <= i < s.len() && s[i] == q;
        assert(s2[i] == q);
        assert(!survives(p, s2));
        assert(!survives(p, s));
        assert(reduced_set(s2) =~= reduced_set(s));
    } else {
        assert(survives(p, s2)) by {
            assert(s2[s.len() as int] == p);
            assert(s2.contains(p));
            assert forall|j: int| 0 <= j < s2.len() implies !(#[trigger] s2[j]).strictly_covers(
                p,
            ) by {
                if j < s.len() && s2[j].strictly_covers(p) {
                    let q = s[j];
                    assert(s.contains(q));
                    lemma_survivor_covers(s, q);
                    let r = choose|r: Prefix| reduced_set(s).contains(r) && r.covers(q);
                    lemma_covers_trans(r, q, p);
                    assert(r.strictly_covers(p));
                }
            }
        }
        assert(reduced_set(s2) =~= reduced_set(s).insert(p));
    }
}

/// `lemma_reduce_step` phrased with plain coverage: on canonical prefixes
/// an equal-length cover is the entry itself, so being covered by a
/// survivor and being strictly covered or already kept coincide.
pub proof fn lemma_reduce_step_covers(s: Seq<Prefix>, p: Prefix)
    requires
        p.wf(),
        forall|j: int| 0 <= j < s.len() ==> (#[trigger] s[j]).wf() && s[j].len <= p.len,
    ensures
        (exists|q: Prefix| reduced_set(s).contains(q) && q.covers(p)) ==> reduced_set(s.push(p))
            == reduced_set(s),
        !(exists|q: Prefix| reduced_set(s).contains(q) && q.covers(p)) ==> reduced_set(s.push(p))
            == reduced_set(s).insert(p),
{
    lemma_reduce_step(s, p);
    if exists|q: Prefix| reduced_set(s).contains(q) && q.covers(p) {
        let q = choose|q: Prefix| reduced_set(s).contains(q) && q.covers(p);
        let j = choose|j: int| 0 <= j < s.len() && s[j] == q;
        if q.len == p.len {
            lemma_bits_determine(q, p);
            assert(reduced_set(s).contains(p));
            if !(exists|q2: Prefix| reduced_set(s).contains(q2) && q2.strictly_covers(p)) {
                assert(reduced_set(s.push(p)) == reduced_set(s).insert(p));
                assert(reduced_set(s).insert(p) =~= reduced_set(s));
            }
        } else {
            assert(q.strictly_covers(p));
        }
    } else {
        assert(!(exists|q: Prefix| reduced_set(s).contains(q) && q.strictly_covers(p))) by {
            if exists|q: Prefix| reduced_set(s).contains(q) && q.strictly_covers(p) {
                let q = choose|q: Prefix| reduced_set(s).contains(q) && q.strictly_covers(p);
                assert(q.covers(p));
            }
        }
    }
}

/// The surviving set depends only on which entries the pool holds, not on
/// their order or multiplicity.
pub proof fn lemma_reduce_same_elements(s1: Seq<Prefix>, s2: Seq<Prefix>)
    requires
        forall|x: Prefix| s1.contains(x) <==> s2.contains(x),
    ensures
        reduced_set(s1) == reduced_set(s2),
{
    assert forall|x: Prefix| survives(x, s1) <==> survives(x, s2) by {
        if survives(x, s1) {
            assert forall|j: int| 0 <= j < s2.len() implies !(#[trigger] s2[j]).strictly_covers(
                x,
            ) by {
                assert(s2.contains(s2[j]));
                let i = choose|i: int| 0 <= i < s1.len() && s1[i] == s2[j];
            }
        }
        if survives(x, s2) {
            assert forall|j: int| 0 <= j < s1.len() implies !(#[trigger] s1[j]).strictly_covers(
                x,
            ) by {
                assert(s1.contains(s1[j]));
                let i = choose|i: int| 0 <= i < s2.len() && s2[i] == s1[j];
            }
        }
    }
    assert(reduced_set(s1) =~= reduced_set(s2));
}

/// Splitting a family's pool into network prefixes and host prefixes: the
/// hosts never cover anything, so the survivors are the surviving network
/// prefixes plus every host that no surviving network prefix covers.
pub proof fn lemma_split_hosts(nets: Seq<Prefix>, hosts: Seq<Prefix>)
    requires
        forall|j: int| 0 <= j < nets.len() ==> (#[trigger] nets[j]).wf() && !nets[j].is_host(),
        forall|j: int| 0 <= j < hosts.len() ==> (#[trigger] hosts[j]).wf() && hosts[j].is_host(),
    ensures
        reduced_set(nets + hosts) == reduced_set(nets).union(
            Set::new(
                |h: Prefix|
                    hosts.contains(h) && !exists|q: Prefix|
                        reduced_set(nets).contains(q) && q.covers(h),
            ),
        ),
{
    let s = nets + hosts;
    let kept = Set::new(
        |h: Prefix|
            hosts.contains(h) && !exists|q: Prefix| reduced_set(nets).contains(q) && q.covers(h),
    );
    assert forall|x: Prefix|
        #![trigger reduced_set(s).contains(x)]
        reduced_set(s).contains(x) <==> (reduced_set(nets).contains(x) || kept.contains(x)) by {
        assert forall|j: int| 0 <= j < s.len() implies (#[trigger] s[j]).wf() && (j < nets.len()
            ==> s[j] == nets[j]) && (j >= nets.len() ==> s[j] == hosts[j - nets.len()]) by {}
        if s.contains(x) {
            let i0 = choose|i0: int| 0 <= i0 < s.len() && s[i0] == x;
            if i0 < nets.len() {
                // x is a network prefix of the pool
                assert(nets.contains(x));
                assert(!x.is_host());
                assert(!hosts.contains(x)) by {
                    if hosts.contains(x) {
                        let i = choose|i: int| 0 <= i < hosts.len() && hosts[i] == x;
                    }
                }
                assert(survives(x, s) <==> survives(x, nets)) by {
                    if survives(x, nets) {
                        assert forall|j: int| 0 <= j < s.len() implies !(
                        #[trigger] s[j]).strictly_covers(x) by {
                            if j >= nets.len() && s[j].strictly_covers(x) {
                                let h = s[j];
                                assert(h.is_host());
                                assert(h.v6 == x.v6);
                                assert(h.len < x.len <= fam_width(x.v6));
                            }
                        }
                    } else {
                        let j = choose|j: int| 0 <= j < nets.len() && nets[j].strictly_covers(x);
                        assert(s[j].strictly_covers(x));
                    }
                }
            } else {
                // x is a host prefix of the pool
                assert(hosts.contains(x));
                assert(x.is_host());
                assert(!reduced_set(nets).contains(x)) by {
                    if survives(x, nets) {
                        let i = choose|i: int| 0 <= i < nets.len() && nets[i] == x;
                    }
                }
                assert(survives(x, s) <==> kept.contains(x)) by {
                    if survives(x, s) {
                        assert(!(exists|q: Prefix|
                            reduced_set(nets).contains(q) && q.covers(x))) by {
                            if exists|q: Prefix| reduced_set(nets).contains(q) && q.covers(x) {
                                let q = choose|q: Prefix|
                                    reduced_set(nets).contains(q) && q.covers(x);
                                let j = choose|j: int| 0 <= j < nets.len() && nets[j] == q;
                                assert(!q.is_host());
                                assert(q.len < fam_width(q.v6));
                                assert(q.strictly_covers(x));
                                assert(s[j].strictly_covers(x));
                            }
                        }
                    }
                    if kept.contains(x) {
                        assert forall|j: int| 0 <= j < s.len() implies !(
                        #[trigger] s[j]).strictly_covers(x) by {
                            if s[j].strictly_covers(x) {
                                if j < nets.len() {
                                    let q = nets[j];
                                    assert(nets.contains(q));
                                    lemma_survivor_covers(nets, q);
                                    let r = choose|r: Prefix|
                                        reduced_set(nets).contains(r) && r.covers(q);
                                    lemma_covers_trans(r, q, x);
                                } else {
                                    let h = s[j];
                                    assert(h.is_host() && h.v6 == x.v6);
                                    assert(h.len < x.len <= fam_width(x.v6));
                                }
                            }
                        }
                    }
                }
            }
        } else {
            assert(!reduced_set(s).contains(x));
            assert(!reduced_set(nets).contains(x)) by {
                if survives(x, nets) {
                    let i = choose|i: int| 0 <= i < nets.len() && nets[i] == x;
                    assert(s[i] == x);
                }
            }
            assert(!kept.contains(x)) by {
                if hosts.contains(x) {
                    let i = choose|i: int| 0 <= i < hosts.len() && hosts[i] == x;
                    assert(s[nets.len() + i] == x);
                }
            }
        }
    }
    assert(reduced_set(s) =~= reduced_set(nets).union(kept));
}

/// The two address families never interact: the survivors of a mixed pool
/// are the survivors of its IPv4 part plus the survivors of its IPv6 part.
pub proof fn lemma_family_split(s: Seq<Prefix>, s4: Seq<Prefix>, s6: Seq<Prefix>)
    requires
        forall|x: Prefix| s4.contains(x) <==> (s.contains(x) && !x.v6),
        forall|x: Prefix| s6.contains(x) <==> (s.contains(x) && x.v6),
    ensures
        reduced_set(s) == reduced_set(s4).union(reduced_set(s6)),
{
    assert forall|x: Prefix| survives(x, s) <==> (survives(x, s4) || survives(x, s6)) by {
        let fam = if x.v6 {
            s6
        } else {
            s4
        };
        let oth = if x.v6 {
            s4
        } else {
            s6
        };
        assert(!survives(x, oth)) by {
            if oth.contains(x) {
                let i = choose|i: int| 0 <= i < oth.len() && oth[i] == x;
            }
        }
        if survives(x, s) {
            assert(fam.contains(x));
            assert forall|j: int| 0 <= j < fam.len() implies !(#[trigger] fam[j]).strictly_covers(
                x,
            ) by {
                assert(fam.contains(fam[j]));
                let i = choose|i: int| 0 <= i < s.len() && s[i] == fam[j];
            }
        }
        if survives(x, fam) {
            assert(s.contains(x));
            assert forall|j: int| 0 <= j < s.len() implies !(#[trigger] s[j]).strictly_covers(
                x,
            ) by {
                if s[j].strictly_covers(x) {
                    assert(s.contains(s[j]));
                    assert(s[j].v6 == x.v6);
                    assert(fam.contains(s[j]));
                    let i = choose|i: int| 0 <= i < fam.len() && fam[i] == s[j];
                }
            }
        }
    }
    assert(reduced_set(s) =~= reduced_set(s4).union(reduced_set(s6)));
}

/// Minimality: no surviving entry strictly covers another surviving
/// entry; the reduced set holds no redundant entry.
pub proof fn lemma_minimality(pool: Seq<Prefix>, a: Prefix, b: Prefix)
    requires
        reduced_set(pool).contains(a),
        reduced_set(pool).contains(b),
    ensures
        !a.strictly_covers(b),
{
    let i = choose|i: int| 0 <= i < pool.len() && pool[i] == a;
    assert(!pool[i].strictly_covers(b));
}

/// Coverage completeness: every entry's network address lies in the
/// block of exactly one surviving entry.
pub proof fn lemma_coverage_completeness(pool: Seq<Prefix>, p: Prefix)
    requires
        forall|j: int| 0 <= j < pool.len() ==> (#[trigger] pool[j]).wf(),
        pool.contains(p),
    ensures
        exists|o: Prefix| reduced_set(pool).contains(o) && o.contains_addr(p),
        forall|o1: Prefix, o2: Prefix|
            reduced_set(pool).contains(o1) && reduced_set(pool).contains(o2)
                && #[trigger] o1.contains_addr(p) && #[trigger] o2.contains_addr(p) ==> o1 == o2,
{
    lemma_survivor_covers(pool, p);
    let o = choose|o: Prefix| reduced_set(pool).contains(o) && o.covers(p);
    assert(o.contains_addr(p));
    assert forall|o1: Prefix, o2: Prefix|
        reduced_set(pool).contains(o1) && reduced_set(pool).contains(o2)
            && #[trigger] o1.contains_addr(p) && #[trigger] o2.contains_addr(p) implies o1
        == o2 by {
        let i1 = choose|i: int| 0 <= i < pool.len() && pool[i] == o1;
        let i2 = choose|i: int| 0 <= i < pool.len() && pool[i] == o2;
        if o1.len <= o2.len {
            assert(o1.covers(o2)) by {
                assert forall|i: int| 0 <= i < o1.len implies o1.bit(i) == o2.bit(i) by {
                    assert(o1.bit(i) == p.bit(i));
                    assert(o2.bit(i) == p.bit(i));
                }
            }
            lemma_minimality(pool, o1, o2);
            lemma_bits_determine(o1, o2);
        } else {
            assert(o2.covers(o1)) by {
                assert forall|i: int| 0 <= i < o2.len implies o2.bit(i) == o1.bit(i) by {
                    assert(o1.bit(i) == p.bit(i));
                    assert(o2.bit(i) == p.bit(i));
                }
            }
            lemma_minimality(pool, o2, o1);
        }
    }
}

/// Family independence: whether an entry survives depends only on the
/// entries of its own family; dropping the other family's entries from
/// the pool changes nothing for it.
pub proof fn lemma_family_independence(pool: Seq<Prefix>, fam_pool: Seq<Prefix>, p: Prefix)
    requires
        forall|x: Prefix| fam_pool.contains(x) <==> (pool.contains(x) && x.v6 == p.v6),
    ensures
        reduced_set(pool).contains(p) <==> reduced_set(fam_pool).contains(p),
{
    if survives(p, pool) {
        assert(fam_pool.contains(p));
        assert forall|j: int| 0 <= j < fam_pool.len() implies !(
        #[trigger] fam_pool[j]).strictly_covers(p) by {
            assert(fam_pool.contains(fam_pool[j]));
            let i = choose|i: int| 0 <= i < pool.len() && pool[i] == fam_pool[j];
        }
    }
    if survives(p, fam_pool) {
        assert(pool.contains(p));
        assert forall|j: int| 0 <= j < pool.len() implies !(#[trigger] pool[j]).strictly_covers(
            p,
        ) by {
            if pool[j].strictly_covers(p) {
                assert(pool.contains(pool[j]));
                assert(pool[j].v6 == p.v6);
                assert(fam_pool.contains(pool[j]));
                let i = choose|i: int| 0 <= i < fam_pool.len() && fam_pool[i] == pool[j];
            }
        }
    }
}

/// Idempotence: reducing the outcome of a reduction again yields the
/// same set.
pub proof fn lemma_idempotence(pool: Seq<Prefix>, r: Seq<Prefix>)
    requires
        r.to_set() == reduced_set(pool),
    ensures
        reduced_set(r) == reduced_set(pool),
{
    assert forall|x: Prefix| survives(x, r) <==> reduced_set(pool).contains(x) by {
        if reduced_set(pool).contains(x) {
            assert(r.to_set().contains(x));
            assert forall|j: int| 0 <= j < r.len() implies !(#[trigger] r[j]).strictly_covers(
                x,
            ) by {
                assert(r.contains(r[j]));
                assert(r.to_set().contains(r[j]));
                lemma_minimality(pool, r[j], x);
            }
        }
        if survives(x, r) {
            assert(r.to_set().contains(x));
        }
    }
    assert(reduced_set(r) =~= reduced_set(pool));
}

/// Permutation invariance: reordering the pool, or repeating entries,
/// never changes the surviving set.
pub proof fn lemma_permutation_invariance(s1: Seq<Prefix>, s2: Seq<Prefix>)
    requires
        s1.to_multiset() == s2.to_multiset(),
    ensures
        reduced_set(s1) == reduced_set(s2),
{
    lemma_multiset_same_contains(s1, s2);
    lemma_reduce_same_elements(s1, s2);
}

} // verus!
