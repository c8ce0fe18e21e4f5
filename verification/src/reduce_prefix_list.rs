//! A list-based reducer: one flat list per address family, scanned
//! linearly on every insertion. Fed in ascending length order it retains
//! the same minimal set as the trie engine, trading the trie's bit walk
//! for a simple membership scan.

use vstd::prelude::*;

use crate::bucket::{sort_prefixes, sorted_by_len};
use crate::prefix::{
    lemma_multiset_same_contains, lemma_push_contains, lemma_reduce_same_elements,
    lemma_reduce_step_covers, reduced_set, survives, Prefix,
};

verus! {

/// Per-family lists of the prefixes retained so far.
pub struct ReducePrefixList {
    ipv4_prefixes: Vec<Prefix>,
    ipv6_prefixes: Vec<Prefix>,
}

impl ReducePrefixList {
    /// The retained IPv4 prefixes, in insertion order.
    pub closed spec fn v4_list(self) -> Seq<Prefix> {
        self.ipv4_prefixes@
    }

    /// The retained IPv6 prefixes, in insertion order.
    pub closed spec fn v6_list(self) -> Seq<Prefix> {
        self.ipv6_prefixes@
    }

    /// All retained prefixes: the IPv4 list followed by the IPv6 list.
    pub open spec fn all_list(self) -> Seq<Prefix> {
        self.v4_list() + self.v6_list()
    }

    /// Each list holds only valid prefixes of its own family.
    pub closed spec fn inv(self) -> bool {
        &&& forall|j: int|
            0 <= j < self.ipv4_prefixes@.len() ==> (#[trigger] self.ipv4_prefixes@[j]).wf()
                && !self.ipv4_prefixes@[j].v6
        &&& forall|j: int|
            0 <= j < self.ipv6_prefixes@.len() ==> (#[trigger] self.ipv6_prefixes@[j]).wf()
                && self.ipv6_prefixes@[j].v6
    }

    /// An empty list pair.
    pub fn new() -> (r: Self)
        ensures
            r.inv(),
            r.all_list() == Seq::<Prefix>::empty(),
    {
        let r = ReducePrefixList { ipv4_prefixes: Vec::new(), ipv6_prefixes: Vec::new() };
        proof {
            assert(r.all_list() =~= Seq::<Prefix>::empty());
        }
        r
    }

    /// Adds `prefix` to its family's list unless some already-retained
    /// entry's block contains its network address; reports whether it was
    /// added. Fed broader prefixes first, this retains the minimal set.
    pub fn insert(&mut self, prefix: Prefix) -> (kept: bool)
        requires
            prefix.wf(),
            old(self).inv(),
        ensures
            final(self).inv(),
            kept == !(exists|q: Prefix|
                #[trigger] old(self).all_list().contains(q) && q.contains_addr(prefix)),
            prefix.v6 ==> final(self).v4_list() == old(self).v4_list(),
            !prefix.v6 ==> final(self).v6_list() == old(self).v6_list(),
            prefix.v6 ==> final(self).v6_list() == (if kept {
                old(self).v6_list().push(prefix)
            } else {
                old(self).v6_list()
            }),
            !prefix.v6 ==> final(self).v4_list() == (if kept {
                old(self).v4_list().push(prefix)
            } else {
                old(self).v4_list()
            }),
    {
        let list_len = if prefix.v6 {
            self.ipv6_prefixes.len()
        } else {
            self.ipv4_prefixes.len()
        };
        let ghost fam = if prefix.v6 {
            old(self).v6_list()
        } else {
            old(self).v4_list()
        };
        let ghost oth = if prefix.v6 {
            old(self).v4_list()
        } else {
            old(self).v6_list()
        };
        let mut j: usize = 0;
        while j < list_len
            invariant
                j <= list_len,
                prefix.wf(),
                self == old(self),
                old(self).inv(),
                list_len == fam.len(),
                fam == if prefix.v6 {
                    old(self).v6_list()
                } else {
                    old(self).v4_list()
                },
                forall|i: int| 0 <= i < j ==> !(#[trigger] fam[i]).contains_addr(prefix),
            decreases list_len - j,
        {
            let existing = if prefix.v6 {
                self.ipv6_prefixes[j]
            } else {
                self.ipv4_prefixes[j]
            };
            if existing.contains_addr_of(&prefix) {
                proof {
                    let k = if prefix.v6 {
                        old(self).v4_list().len() + j
                    } else {
                        j as int
                    };
                    assert(old(self).all_list()[k] == existing);
                    assert(old(self).all_list().contains(existing));
                }
                return false;
            }
            j += 1;
        }
        proof {
            assert forall|q: Prefix|
                !(#[trigger] old(self).all_list().contains(q) && q.contains_addr(prefix)) by {
                if old(self).all_list().contains(q) && q.contains_addr(prefix) {
                    let k = choose|k: int|
                        0 <= k < old(self).all_list().len() && old(self).all_list()[k] == q;
                    if k < old(self).v4_list().len() {
                        assert(old(self).v4_list()[k] == q);
                        assert(!q.v6);
                        assert(!prefix.v6);
                        assert(fam[k] == q);
                    } else {
                        assert(old(self).v6_list()[k - old(self).v4_list().len()] == q);
                        assert(q.v6);
                        assert(prefix.v6);
                        assert(fam[k - old(self).v4_list().len()] == q);
                    }
                }
            }
        }
        if prefix.v6 {
            self.ipv6_prefixes.push(prefix);
        } else {
            self.ipv4_prefixes.push(prefix);
        }
        true
    }

    /// Builds the reduced list of a batch: buckets it by ascending prefix
    /// length and inserts each entry in turn. The retained entries are
    /// exactly the input entries that no other input entry strictly
    /// covers.
    pub fn with_prefixes(prefixes: Vec<Prefix>) -> (list: Self)
        requires
            forall|j: int| 0 <= j < prefixes@.len() ==> (#[trigger] prefixes@[j]).wf(),
        ensures
            list.inv(),
            list.all_list().to_set() == reduced_set(prefixes@),
    {
        let sorted = sort_prefixes(prefixes);
        proof {
            lemma_multiset_same_contains(sorted@, prefixes@);
            assert forall|j: int| 0 <= j < sorted@.len() implies (#[trigger] sorted@[j]).wf() by {
                assert(sorted@.contains(sorted@[j]));
                assert(prefixes@.contains(sorted@[j]));
                let i = choose|i: int| 0 <= i < prefixes@.len() && prefixes@[i] == sorted@[j];
            }
            lemma_reduce_same_elements(prefixes@, sorted@);
        }
        let mut list = ReducePrefixList::new();
        proof {
            assert(reduced_set(sorted@.take(0)) =~= Set::<Prefix>::empty());
            assert forall|x: Prefix| !list.all_list().contains(x) by {
                if list.all_list().contains(x) {
                    let k = choose|k: int|
                        0 <= k < list.all_list().len() && list.all_list()[k] == x;
                }
            }
        }
        let mut i: usize = 0;
        while i < sorted.len()
            invariant
                i <= sorted@.len(),
                forall|j: int| 0 <= j < sorted@.len() ==> (#[trigger] sorted@[j]).wf(),
                sorted_by_len(sorted@),
                list.inv(),
                forall|x: Prefix|
                    #[trigger] list.all_list().contains(x) <==> reduced_set(
                        sorted@.take(i as int),
                    ).contains(x),
            decreases sorted@.len() - i,
        {
            let p = sorted[i];
            let ghost seen = sorted@.take(i as int);
            let ghost before = list;
            let kept = list.insert(p);
            proof {
                assert(sorted@.take(i + 1) =~= seen.push(p));
                assert forall|j: int| 0 <= j < seen.len() implies (#[trigger] seen[j]).wf()
                    && seen[j].len <= p.len by {
                    assert(sorted@[j].len <= sorted@[i as int].len);
                }
                lemma_reduce_step_covers(seen, p);
                assert((exists|q: Prefix|
                    #[trigger] before.all_list().contains(q) && q.contains_addr(p)) <==> (
                exists|q: Prefix| reduced_set(seen).contains(q) && q.covers(p))) by {
                    if exists|q: Prefix|
                        #[trigger] before.all_list().contains(q) && q.contains_addr(p) {
                        let q = choose|q: Prefix|
                            #[trigger] before.all_list().contains(q) && q.contains_addr(p);
                        assert(reduced_set(seen).contains(q));
                        assert(survives(q, seen));
                        let j = choose|j: int| 0 <= j < seen.len() && seen[j] == q;
                        assert(sorted@[j].len <= sorted@[i as int].len);
                        assert(q.covers(p));
                    }
                    if exists|q: Prefix| reduced_set(seen).contains(q) && q.covers(p) {
                        let q = choose|q: Prefix| reduced_set(seen).contains(q) && q.covers(p);
                        assert(before.all_list().contains(q) && q.contains_addr(p));
                    }
                }
                assert forall|x: Prefix| #[trigger] list.all_list().contains(x) <==> reduced_set(
                    sorted@.take(i + 1),
                ).contains(x) by {
                    if p.v6 {
                        assert(list.all_list() == before.v4_list() + list.v6_list());
                        lemma_push_contains(before.v6_list(), p, x);
                        assert(list.all_list().contains(x) <==> (before.v4_list().contains(x)
                            || list.v6_list().contains(x))) by {
                            lemma_concat_contains(before.v4_list(), list.v6_list(), x);
                        }
                        assert(before.all_list().contains(x) <==> (before.v4_list().contains(x)
                            || before.v6_list().contains(x))) by {
                            lemma_concat_contains(before.v4_list(), before.v6_list(), x);
                        }
                    } else {
                        lemma_push_contains(before.v4_list(), p, x);
                        assert(list.all_list().contains(x) <==> (list.v4_list().contains(x)
                            || before.v6_list().contains(x))) by {
                            lemma_concat_contains(list.v4_list(), before.v6_list(), x);
                        }
                        assert(before.all_list().contains(x) <==> (before.v4_list().contains(x)
                            || before.v6_list().contains(x))) by {
                            lemma_concat_contains(before.v4_list(), before.v6_list(), x);
                        }
                    }
                }
            }
            i += 1;
        }
        proof {
            assert(sorted@.take(sorted@.len() as int) =~= sorted@);
            assert(list.all_list().to_set() =~= reduced_set(sorted@));
        }
        list
    }

    /// Returns all retained prefixes: the IPv4 list followed by the IPv6
    /// list.
    pub fn get_all_prefixes(&self) -> (r: Vec<Prefix>)
        ensures
            r@ == self.all_list(),
    {
        let mut result: Vec<Prefix> = Vec::new();
        proof {
            assert(result@ =~= self.ipv4_prefixes@.take(0));
        }
        let mut j: usize = 0;
        while j < self.ipv4_prefixes.len()
            invariant
                j <= self.ipv4_prefixes@.len(),
                result@ == self.ipv4_prefixes@.take(j as int),
            decreases self.ipv4_prefixes@.len() - j,
        {
            result.push(self.ipv4_prefixes[j]);
            proof {
                assert(self.ipv4_prefixes@.take(j + 1) =~= self.ipv4_prefixes@.take(
                    j as int,
                ).push(self.ipv4_prefixes@[j as int]));
            }
            j += 1;
        }
        proof {
            assert(self.ipv4_prefixes@.take(self.ipv4_prefixes@.len() as int)
                =~= self.ipv4_prefixes@);
            assert(result@ =~= self.ipv4_prefixes@ + self.ipv6_prefixes@.take(0));
        }
        let mut j: usize = 0;
        while j < self.ipv6_prefixes.len()
            invariant
                j <= self.ipv6_prefixes@.len(),
                result@ == self.ipv4_prefixes@ + self.ipv6_prefixes@.take(j as int),
            decreases self.ipv6_prefixes@.len() - j,
        {
            result.push(self.ipv6_prefixes[j]);
            proof {
                assert(self.ipv6_prefixes@.take(j + 1) =~= self.ipv6_prefixes@.take(
                    j as int,
                ).push(self.ipv6_prefixes@[j as int]));
                assert(result@ =~= self.ipv4_prefixes@ + self.ipv6_prefixes@.take(j + 1));
            }
            j += 1;
        }
        proof {
            assert(self.ipv4_prefixes@.take(self.ipv4_prefixes@.len() as int)
                =~= self.ipv4_prefixes@);
            assert(self.ipv6_prefixes@.take(self.ipv6_prefixes@.len() as int)
                =~= self.ipv6_prefixes@);
        }
        result
    }
}

/// Membership in a concatenation is membership in either part.
proof fn lemma_concat_contains(a: Seq<Prefix>, b: Seq<Prefix>, x: Prefix)
    ensures
        (a + b).contains(x) <==> (a.contains(x) || b.contains(x)),
{
    if a.contains(x) {
        let i = choose|i: int| 0 <= i < a.len() && a[i] == x;
        assert((a + b)[i] == x);
    }
    if b.contains(x) {
        let i = choose|i: int| 0 <= i < b.len() && b[i] == x;
        assert((a + b)[a.len() + i] == x);
    }
    if (a + b).contains(x) {
        let i = choose|i: int| 0 <= i < (a + b).len() && (a + b)[i] == x;
        if i < a.len() {
            assert(a[i] == x);
        } else {
            assert(b[i - a.len()] == x);
        }
    }
}

} // verus!
