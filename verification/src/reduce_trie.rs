//! The prefix-reduction engine: a binary trie per address family. Prefixes
//! are inserted in ascending length order, bit by bit; an insertion that
//! meets a terminal marker on its way down is already covered and is
//! discarded. Host prefixes are never inserted; they are checked read-only
//! against the finished trie.

use vstd::prelude::*;

use crate::prefix::{
    fam_width, lemma_ancestor_full, lemma_ancestor_ok, lemma_child_ok, lemma_covers_trans,
    lemma_family_split, lemma_multiset_same_contains, lemma_push_contains,
    lemma_reduce_same_elements, lemma_reduce_step, lemma_split_hosts, reduced_set, survives,
    Prefix,
};
use crate::bucket::{sort_prefixes, sorted_by_len};

verus! {

broadcast use vstd::seq_lib::group_to_multiset_ensures;

/// The zero-length prefix a family's trie walk starts from.
spec fn fam_root(v6: bool) -> Prefix {
    Prefix { v6, addr: 0, len: 0 }
}

/// A trie node: one child slot per next address bit and an optional
/// terminal marker carrying a retained prefix.
struct Node {
    c0: Option<Box<Node>>,
    c1: Option<Box<Node>>,
    term: Option<Prefix>,
}

impl Node {
    /// The prefixes retained in an optional subtree.
    spec fn opt_terms(o: Option<Box<Node>>) -> Set<Prefix>
        decreases o,
    {
        match o {
            None => Set::empty(),
            Some(n) => n.terms(),
        }
    }

    /// The prefixes retained in the subtree rooted at `self`.
    spec fn terms(self) -> Set<Prefix>
        decreases self,
    {
        let own = match self.term {
            None => Set::<Prefix>::empty(),
            Some(p) => Set::<Prefix>::empty().insert(p),
        };
        own.union(Node::opt_terms(self.c0)).union(Node::opt_terms(self.c1))
    }

    /// Well-formedness of the subtree that sits at the end of the bit path
    /// `path`: a terminal marker holds exactly the prefix spelled by the
    /// path, is never a host prefix, and seals its node: a terminal node
    /// has no children, so nothing more specific survives below it.
    spec fn inv(self, path: Prefix) -> bool
        decreases self,
    {
        &&& path.wf()
        &&& match self.term {
            Some(q) => q == path && !q.is_host() && self.c0 is None && self.c1 is None,
            None => true,
        }
        &&& match self.c0 {
            Some(n) => path.len < fam_width(path.v6) && n.inv(path.child(false)),
            None => true,
        }
        &&& match self.c1 {
            Some(n) => path.len < fam_width(path.v6) && n.inv(path.child(true)),
            None => true,
        }
    }

    /// In a well-formed subtree every retained prefix is a valid non-host
    /// prefix of the path's family that the path covers, and the prefixes
    /// below a child slot extend the path by that child's bit.
    proof fn lemma_terms_inv(self, path: Prefix)
        requires
            self.inv(path),
        ensures
            forall|q: Prefix| #[trigger] self.terms().contains(q) ==> q.wf() && q.v6 == path.v6
                && !q.is_host() && path.covers(q),
            forall|q: Prefix| #[trigger] Node::opt_terms(self.c0).contains(q) ==> path.len < q.len
                && !q.bit(path.len as int),
            forall|q: Prefix| #[trigger] Node::opt_terms(self.c1).contains(q) ==> path.len < q.len
                && q.bit(path.len as int),
        decreases self,
    {
        assert(path.covers(path));
        assert forall|q: Prefix| #[trigger] Node::opt_terms(self.c0).contains(q) implies q.wf()
            && q.v6 == path.v6 && !q.is_host() && path.covers(q) && path.len < q.len && !q.bit(
            path.len as int,
        ) by {
            match self.c0 {
                Some(n) => {
                    lemma_child_ok(path, false);
                    n.lemma_terms_inv(path.child(false));
                    assert(n.terms().contains(q));
                    assert(path.covers(path.child(false)));
                    lemma_covers_trans(path, path.child(false), q);
                    assert(path.child(false).covers(q));
                    assert(path.child(false).bit(path.len as int) == q.bit(path.len as int));
                },
                None => {
                    assert(Node::opt_terms(self.c0) =~= Set::<Prefix>::empty());
                },
            }
        }
        assert forall|q: Prefix| #[trigger] Node::opt_terms(self.c1).contains(q) implies q.wf()
            && q.v6 == path.v6 && !q.is_host() && path.covers(q) && path.len < q.len && q.bit(
            path.len as int,
        ) by {
            match self.c1 {
                Some(n) => {
                    lemma_child_ok(path, true);
                    n.lemma_terms_inv(path.child(true));
                    assert(n.terms().contains(q));
                    assert(path.covers(path.child(true)));
                    lemma_covers_trans(path, path.child(true), q);
                    assert(path.child(true).covers(q));
                    assert(path.child(true).bit(path.len as int) == q.bit(path.len as int));
                },
                None => {
                    assert(Node::opt_terms(self.c1) =~= Set::<Prefix>::empty());
                },
            }
        }
        assert forall|q: Prefix| #[trigger] self.terms().contains(q) implies q.wf() && q.v6
            == path.v6 && !q.is_host() && path.covers(q) by {
            if !Node::opt_terms(self.c0).contains(q) && !Node::opt_terms(self.c1).contains(q) {
                assert(self.term == Some(q));
                assert(q == path);
            }
        }
    }

    /// Inserts `p` below an optional child slot standing at depth `pos` on
    /// `p`'s own bit path, creating the node first when the slot is empty.
    /// An insertion that is already covered leaves the slot untouched.
    fn insert_opt(child: &mut Option<Box<Node>>, p: Prefix, pos: u8)
        requires
            p.wf(),
            !p.is_host(),
            pos <= p.len,
            match *old(child) {
                Some(n) => n.inv(p.ancestor(pos as int)),
                None => true,
            },
            forall|q: Prefix| #[trigger] Node::opt_terms(*old(child)).contains(q) ==> q.len
                <= p.len,
        ensures
            match *final(child) {
                Some(n) => n.inv(p.ancestor(pos as int)),
                None => false,
            },
            (exists|q: Prefix| #[trigger] Node::opt_terms(*old(child)).contains(q)
                && q.strictly_covers(p)) ==> *final(child) == *old(child),
            !(exists|q: Prefix| #[trigger] Node::opt_terms(*old(child)).contains(q)
                && q.strictly_covers(p)) ==> Node::opt_terms(*final(child)) == Node::opt_terms(
                *old(child),
            ).insert(p),
            forall|q: Prefix| #[trigger] Node::opt_terms(*final(child)).contains(q) ==> q.len
                <= p.len,
        decreases p.len - pos, 1int,
    {
        proof {
            lemma_ancestor_ok(p, pos as int);
        }
        match child.take() {
            None => {
                let mut n = Node::empty();
                Node::insert_at(&mut n, p, pos);
                *child = Some(Box::new(n));
                proof {
                    assert(Node::opt_terms(*old(child)) =~= Set::<Prefix>::empty());
                    assert(Node::opt_terms(*final(child)) == Set::<Prefix>::empty().insert(p));
                }
            },
            Some(mut boxed) => {
                proof {
                    assert(Node::opt_terms(*old(child)) == boxed.terms());
                    assert forall|q: Prefix| #[trigger] boxed.terms().contains(q) implies q.len
                        <= p.len by {
                        assert(Node::opt_terms(*old(child)).contains(q));
                    }
                }
                Node::insert_at(&mut *boxed, p, pos);
                *child = Some(boxed);
            },
        }
    }

    /// Inserts `p` into the subtree standing at depth `pos` on `p`'s own
    /// bit path: walks one bit per level, gives up as covered when a
    /// terminal marker is met on the way down, and otherwise marks the
    /// node at `p`'s exact length terminal, discarding its child slots.
    /// A covered insertion leaves the subtree entirely unchanged.
    fn insert_at(node: &mut Node, p: Prefix, pos: u8)
        requires
            p.wf(),
            !p.is_host(),
            pos <= p.len,
            old(node).inv(p.ancestor(pos as int)),
            forall|q: Prefix| #[trigger] old(node).terms().contains(q) ==> q.len <= p.len,
        ensures
            final(node).inv(p.ancestor(pos as int)),
            (exists|q: Prefix| #[trigger] old(node).terms().contains(q) && q.strictly_covers(p))
                ==> *final(node) == *old(node),
            !(exists|q: Prefix| #[trigger] old(node).terms().contains(q) && q.strictly_covers(p))
                ==> final(node).terms() == old(node).terms().insert(p),
            forall|q: Prefix| #[trigger] final(node).terms().contains(q) ==> q.len <= p.len,
        decreases p.len - pos, 0int,
    {
        let ghost path = p.ancestor(pos as int);
        proof {
            lemma_ancestor_ok(p, pos as int);
            old(node).lemma_terms_inv(path);
        }
        if pos < p.len && node.term.is_some() {
            proof {
                let q0 = old(node).term.unwrap();
                assert(old(node).terms().contains(q0));
                assert(q0.strictly_covers(p));
            }
            return ;
        }
        if pos == p.len {
            proof {
                lemma_ancestor_full(p);
                assert(Node::opt_terms(old(node).c0) =~= Set::<Prefix>::empty()) by {
                    assert forall|q: Prefix|
                        !Node::opt_terms(old(node).c0).contains(q) by {
                        if Node::opt_terms(old(node).c0).contains(q) {
                            assert(old(node).terms().contains(q));
                        }
                    }
                }
                assert(Node::opt_terms(old(node).c1) =~= Set::<Prefix>::empty()) by {
                    assert forall|q: Prefix|
                        !Node::opt_terms(old(node).c1).contains(q) by {
                        if Node::opt_terms(old(node).c1).contains(q) {
                            assert(old(node).terms().contains(q));
                        }
                    }
                }
            }
            node.term = Some(p);
            node.c0 = None;
            node.c1 = None;
            proof {
                assert(node.terms() =~= old(node).terms().insert(p));
                assert forall|q: Prefix|
                    !(old(node).terms().contains(q) && q.strictly_covers(p)) by {
                    if old(node).terms().contains(q) {
                        assert(q == p);
                    }
                }
            }
            return ;
        }
        let b = p.bit_at(pos);
        proof {
            lemma_child_ok(path, b);
            assert(p.ancestor((pos + 1) as int) == path.child(p.bit(pos as int)));
        }
        proof {
            assert forall|q: Prefix| #[trigger] Node::opt_terms(old(node).c0).contains(q) implies
                q.len <= p.len by {
                assert(old(node).terms().contains(q));
            }
            assert forall|q: Prefix| #[trigger] Node::opt_terms(old(node).c1).contains(q) implies
                q.len <= p.len by {
                assert(old(node).terms().contains(q));
            }
        }
        if b {
            Node::insert_opt(&mut node.c1, p, pos + 1);
        } else {
            Node::insert_opt(&mut node.c0, p, pos + 1);
        }
        proof {
            let old_sub = if b {
                Node::opt_terms(old(node).c1)
            } else {
                Node::opt_terms(old(node).c0)
            };
            let new_sub = if b {
                Node::opt_terms(node.c1)
            } else {
                Node::opt_terms(node.c0)
            };
            let other = if b {
                Node::opt_terms(old(node).c0)
            } else {
                Node::opt_terms(old(node).c1)
            };
            assert(old(node).term is None);
            assert(old(node).terms() =~= old_sub.union(other));
            if exists|q: Prefix| #[trigger] old_sub.contains(q) && q.strictly_covers(p) {
                let q = choose|q: Prefix| #[trigger] old_sub.contains(q) && q.strictly_covers(p);
                assert(old(node).terms().contains(q));
                if b {
                    assert(node.c1 == old(node).c1);
                } else {
                    assert(node.c0 == old(node).c0);
                }
                assert(*node == *old(node));
            } else {
                assert forall|q: Prefix|
                    !(#[trigger] old(node).terms().contains(q) && q.strictly_covers(p)) by {
                    if old(node).terms().contains(q) && q.strictly_covers(p) {
                        assert(other.contains(q) || old_sub.contains(q));
                        if other.contains(q) {
                            assert(q.bit(pos as int) != p.bit(pos as int));
                            assert(q.covers(p) && pos < q.len);
                            assert(q.bit(pos as int) == p.bit(pos as int));
                        }
                    }
                }
                assert(new_sub == old_sub.insert(p));
                assert(node.terms() =~= old(node).terms().insert(p));
            }
        }
    }

    /// Walks the host prefix `p`'s bit path read-only from depth `pos` and
    /// reports whether some retained prefix in the subtree covers `p`.
    fn covered_at(node: &Node, p: Prefix, pos: u8) -> (r: bool)
        requires
            p.wf(),
            p.is_host(),
            pos <= p.len,
            node.inv(p.ancestor(pos as int)),
        ensures
            r == exists|q: Prefix| #[trigger] node.terms().contains(q) && q.covers(p),
        decreases p.len - pos, 0int,
    {
        let ghost path = p.ancestor(pos as int);
        proof {
            lemma_ancestor_ok(p, pos as int);
            node.lemma_terms_inv(path);
        }
        if node.term.is_some() {
            proof {
                let q0 = node.term.unwrap();
                assert(node.terms().contains(q0));
                assert(q0.covers(p));
            }
            return true;
        }
        if pos == p.len {
            proof {
                assert forall|q: Prefix|
                    !(#[trigger] node.terms().contains(q) && q.covers(p)) by {
                    if node.terms().contains(q) {
                        assert(Node::opt_terms(node.c0).contains(q) || Node::opt_terms(
                            node.c1,
                        ).contains(q));
                        assert(q.len > path.len);
                    }
                }
            }
            return false;
        }
        let b = p.bit_at(pos);
        proof {
            lemma_child_ok(path, b);
            assert(p.ancestor((pos + 1) as int) == path.child(p.bit(pos as int)));
        }
        let r = if b {
            Node::covered_opt(&node.c1, p, pos + 1)
        } else {
            Node::covered_opt(&node.c0, p, pos + 1)
        };
        proof {
            let sub = if b {
                Node::opt_terms(node.c1)
            } else {
                Node::opt_terms(node.c0)
            };
            if r {
                let q = choose|q: Prefix| #[trigger] sub.contains(q) && q.covers(p);
                assert(node.terms().contains(q));
            } else {
                assert forall|q: Prefix|
                    !(#[trigger] node.terms().contains(q) && q.covers(p)) by {
                    if node.terms().contains(q) && q.covers(p) {
                        assert(Node::opt_terms(node.c0).contains(q) || Node::opt_terms(
                            node.c1,
                        ).contains(q));
                        assert(pos < q.len);
                        assert(q.bit(pos as int) == p.bit(pos as int));
                        assert(sub.contains(q));
                    }
                }
            }
        }
        r
    }

    /// `covered_at` on an optional child slot: an absent subtree retains
    /// nothing, so it covers nothing.
    fn covered_opt(o: &Option<Box<Node>>, p: Prefix, pos: u8) -> (r: bool)
        requires
            p.wf(),
            p.is_host(),
            pos <= p.len,
            match *o {
                Some(n) => n.inv(p.ancestor(pos as int)),
                None => true,
            },
        ensures
            r == exists|q: Prefix| #[trigger] Node::opt_terms(*o).contains(q) && q.covers(p),
        decreases p.len - pos, 1int,
    {
        match o {
            None => {
                proof {
                    assert(Node::opt_terms(*o) =~= Set::<Prefix>::empty());
                }
                false
            },
            Some(boxed) => {
                let r = Node::covered_at(&**boxed, p, pos);
                proof {
                    assert(Node::opt_terms(*o) == boxed.terms());
                }
                r
            },
        }
    }

    /// Depth-first collection of the retained prefixes below `node` into
    /// `out`. A node carrying a terminal marker emits its prefix and is
    /// not descended into.
    fn collect_at(node: &Node, out: &mut Vec<Prefix>, Ghost(path): Ghost<Prefix>)
        requires
            node.inv(path),
        ensures
            final(out)@.to_set() == old(out)@.to_set().union(node.terms()),
        decreases node,
    {
        if node.term.is_some() {
            let q = *node.term.as_ref().unwrap();
            out.push(q);
            proof {
                assert(out@ == old(out)@.push(q));
                assert(out@.to_set() =~= old(out)@.to_set().union(node.terms())) by {
                    assert forall|x: Prefix| #[trigger] out@.contains(x) implies old(
                        out,
                    )@.contains(x) || x == q by {
                        let i = choose|i: int| 0 <= i < out@.len() && out@[i] == x;
                        if i < old(out)@.len() {
                            assert(old(out)@[i] == x);
                        }
                    }
                    assert forall|x: Prefix| old(out)@.contains(x) implies out@.contains(x) by {
                        let i = choose|i: int| 0 <= i < old(out)@.len() && old(out)@[i] == x;
                        assert(out@[i] == x);
                    }
                    assert(out@[old(out)@.len() as int] == q);
                    assert(out@.contains(q));
                }
            }
            return ;
        }
        let ghost mid = out@;
        if let Some(n) = &node.c0 {
            Node::collect_at(&**n, out, Ghost(path.child(false)));
        }
        if let Some(n) = &node.c1 {
            Node::collect_at(&**n, out, Ghost(path.child(true)));
        }
        proof {
            assert(node.terms() =~= Node::opt_terms(node.c0).union(Node::opt_terms(node.c1)));
            if node.c0 is None {
                assert(Node::opt_terms(node.c0) =~= Set::<Prefix>::empty());
            }
            if node.c1 is None {
                assert(Node::opt_terms(node.c1) =~= Set::<Prefix>::empty());
            }
            assert(out@.to_set() =~= old(out)@.to_set().union(node.terms()));
        }
    }

    /// A fresh node: no children, no terminal marker.
    fn empty() -> (n: Node)
        ensures
            n.terms() == Set::<Prefix>::empty(),
            forall|path: Prefix| path.wf() ==> #[trigger] n.inv(path),
    {
        let n = Node { c0: None, c1: None, term: None };
        proof {
            assert(n.terms() =~= Set::<Prefix>::empty());
        }
        n
    }
}

/// One address family's state: a trie holding the retained network
/// prefixes and, kept outside the trie, the retained host prefixes.
struct Table {
    root: Node,
    hosts: Vec<Prefix>,
    fam: Ghost<bool>,
}

impl Table {
    spec fn inv(self) -> bool {
        &&& self.root.inv(fam_root(self.fam@))
        &&& forall|j: int|
            0 <= j < self.hosts@.len() ==> (#[trigger] self.hosts@[j]).wf() && self.hosts@[j].v6
                == self.fam@ && self.hosts@[j].is_host()
    }

    /// Everything this family retains: trie terminals plus kept hosts.
    spec fn result_set(self) -> Set<Prefix> {
        self.root.terms().union(self.hosts@.to_set())
    }

    /// Builds one family's table: bucket the batch by ascending length,
    /// insert the network prefixes into the trie in that order, then keep
    /// exactly the hosts that the finished trie does not cover.
    fn build_for_family(prefixes: Vec<Prefix>, Ghost(v6): Ghost<bool>) -> (t: Table)
        requires
            forall|j: int|
                0 <= j < prefixes@.len() ==> (#[trigger] prefixes@[j]).wf() && prefixes@[j].v6
                    == v6,
        ensures
            t.inv(),
            t.fam@ == v6,
            t.result_set() == reduced_set(prefixes@),
    {
        let sorted = sort_prefixes(prefixes);
        proof {
            lemma_multiset_same_contains(sorted@, prefixes@);
            assert forall|j: int| 0 <= j < sorted@.len() implies (#[trigger] sorted@[j]).wf()
                && sorted@[j].v6 == v6 by {
                assert(sorted@.contains(sorted@[j]));
                assert(prefixes@.contains(sorted@[j]));
                let i = choose|i: int| 0 <= i < prefixes@.len() && prefixes@[i] == sorted@[j];
            }
        }
        let mut nets: Vec<Prefix> = Vec::new();
        let mut hostv: Vec<Prefix> = Vec::new();
        let mut i: usize = 0;
        while i < sorted.len()
            invariant
                i <= sorted@.len(),
                forall|j: int|
                    0 <= j < sorted@.len() ==> (#[trigger] sorted@[j]).wf() && sorted@[j].v6 == v6,
                sorted_by_len(sorted@),
                forall|j: int|
                    0 <= j < nets@.len() ==> (#[trigger] nets@[j]).wf() && nets@[j].v6 == v6
                        && !nets@[j].is_host(),
                forall|j: int|
                    0 <= j < hostv@.len() ==> (#[trigger] hostv@[j]).wf() && hostv@[j].v6 == v6
                        && hostv@[j].is_host(),
                sorted_by_len(nets@),
                forall|x: Prefix|
                    (nets@.contains(x) || hostv@.contains(x)) <==> sorted@.take(i as int).contains(
                        x,
                    ),
                forall|j: int, k: int|
                    0 <= j < nets@.len() && i <= k < sorted@.len() ==> (#[trigger] nets@[j]).len
                        <= (#[trigger] sorted@[k]).len,
            decreases sorted@.len() - i,
        {
            let p = sorted[i];
            let w = p.max_len();
            let ghost nets0 = nets@;
            let ghost hostv0 = hostv@;
            if p.len < w {
                nets.push(p);
            } else {
                hostv.push(p);
            }
            proof {
                assert(sorted@.take(i + 1) =~= sorted@.take(i as int).push(p));
                assert forall|x: Prefix|
                    (nets@.contains(x) || hostv@.contains(x)) <==> sorted@.take(
                        i + 1,
                    ).contains(x) by {
                    lemma_push_contains(nets0, p, x);
                    lemma_push_contains(hostv0, p, x);
                    lemma_push_contains(sorted@.take(i as int), p, x);
                }
            }
            i += 1;
        }
        proof {
            assert(sorted@.take(sorted@.len() as int) =~= sorted@);
        }
        let ghost netseq = nets@;
        let mut root = Node::empty();
        proof {
            assert(fam_root(v6).wf()) by {
                let r = fam_root(v6);
                assert forall|i: int| 0 <= i < fam_width(r.v6) implies !r.bit(i) by {
                    let s = (fam_width(r.v6) - 1 - i) as u128;
                    assert((0u128 >> s) & 1 == 0) by (bit_vector);
                }
            }
            assert(reduced_set(nets@.take(0)) =~= Set::<Prefix>::empty());
        }
        let mut k: usize = 0;
        while k < nets.len()
            invariant
                k <= nets@.len(),
                nets@ == netseq,
                forall|j: int|
                    0 <= j < nets@.len() ==> (#[trigger] nets@[j]).wf() && nets@[j].v6 == v6
                        && !nets@[j].is_host(),
                sorted_by_len(nets@),
                root.inv(fam_root(v6)),
                root.terms() == reduced_set(nets@.take(k as int)),
            decreases nets@.len() - k,
        {
            let p = nets[k];
            let ghost seen = nets@.take(k as int);
            proof {
                assert forall|q: Prefix| #[trigger] root.terms().contains(q) implies q.len
                    <= p.len by {
                    assert(survives(q, seen));
                    let j = choose|j: int| 0 <= j < seen.len() && seen[j] == q;
                    assert(nets@[j] == q);
                }
                assert(p.ancestor(0) == fam_root(v6));
            }
            Node::insert_at(&mut root, p, 0);
            proof {
                lemma_reduce_step(seen, p);
                assert(nets@.take(k + 1) =~= seen.push(p));
            }
            k += 1;
        }
        proof {
            assert(nets@.take(nets@.len() as int) =~= nets@);
        }
        let mut kept: Vec<Prefix> = Vec::new();
        proof {
            assert(kept@.to_set() =~= Set::new(
                |h: Prefix|
                    hostv@.take(0).contains(h) && !exists|q: Prefix|
                        root.terms().contains(q) && q.covers(h),
            ));
        }
        let mut k: usize = 0;
        while k < hostv.len()
            invariant
                k <= hostv@.len(),
                forall|j: int|
                    0 <= j < hostv@.len() ==> (#[trigger] hostv@[j]).wf() && hostv@[j].v6 == v6
                        && hostv@[j].is_host(),
                root.inv(fam_root(v6)),
                root.terms() == reduced_set(netseq),
                forall|j: int|
                    0 <= j < kept@.len() ==> (#[trigger] kept@[j]).wf() && kept@[j].v6 == v6
                        && kept@[j].is_host(),
                kept@.to_set() == Set::new(
                    |h: Prefix|
                        hostv@.take(k as int).contains(h) && !exists|q: Prefix|
                            root.terms().contains(q) && q.covers(h),
                ),
            decreases hostv@.len() - k,
        {
            let h = hostv[k];
            let ghost kept0 = kept@;
            proof {
                assert(h.ancestor(0) == fam_root(v6));
            }
            let c = Node::covered_at(&root, h, 0);
            if !c {
                kept.push(h);
            }
            proof {
                assert(hostv@.take(k + 1) =~= hostv@.take(k as int).push(h));
                assert forall|x: Prefix| #[trigger] kept@.contains(x) <==> (hostv@.take(
                    k + 1,
                ).contains(x) && !exists|q: Prefix| root.terms().contains(q) && q.covers(x)) by {
                    lemma_push_contains(hostv@.take(k as int), h, x);
                    assert(hostv@.take(k + 1).contains(x) <==> (hostv@.take(k as int).contains(x)
                        || x == h));
                    assert(kept0.contains(x) <==> kept0.to_set().contains(x));
                    assert(kept0.to_set().contains(x) <==> (hostv@.take(k as int).contains(x) && !(
                    exists|q: Prefix| root.terms().contains(q) && q.covers(x))));
                    if !c {
                        assert(kept@ == kept0.push(h));
                        lemma_push_contains(kept0, h, x);
                    } else {
                        assert(kept@ == kept0);
                    }
                }
                assert(kept@.to_set() =~= Set::new(
                    |x: Prefix|
                        hostv@.take(k + 1).contains(x) && !exists|q: Prefix|
                            root.terms().contains(q) && q.covers(x),
                ));
            }
            k += 1;
        }
        proof {
            assert(hostv@.take(hostv@.len() as int) =~= hostv@);
        }
        let t = Table { root, hosts: kept, fam: Ghost(v6) };
        proof {
            lemma_reduce_same_elements(prefixes@, sorted@);
            assert forall|x: Prefix| sorted@.contains(x) <==> (netseq + hostv@).contains(x) by {
                if netseq.contains(x) {
                    let j = choose|j: int| 0 <= j < netseq.len() && netseq[j] == x;
                    assert((netseq + hostv@)[j] == x);
                }
                if hostv@.contains(x) {
                    let j = choose|j: int| 0 <= j < hostv@.len() && hostv@[j] == x;
                    assert((netseq + hostv@)[netseq.len() + j] == x);
                }
                if (netseq + hostv@).contains(x) {
                    let j = choose|j: int|
                        0 <= j < (netseq + hostv@).len() && (netseq + hostv@)[j] == x;
                    if j < netseq.len() {
                        assert(netseq[j] == x);
                    } else {
                        assert(hostv@[j - netseq.len()] == x);
                    }
                }
            }
            lemma_reduce_same_elements(sorted@, netseq + hostv@);
            lemma_split_hosts(netseq, hostv@);
            assert(kept@.to_set() =~= Set::new(
                |h: Prefix|
                    hostv@.contains(h) && !exists|q: Prefix|
                        reduced_set(netseq).contains(q) && q.covers(h),
            )) by {
                assert forall|h: Prefix| #[trigger] kept@.contains(h) <==> (hostv@.contains(h)
                    && !exists|q: Prefix| reduced_set(netseq).contains(q) && q.covers(h)) by {
                    assert(kept@.to_set().contains(h) <==> (hostv@.take(
                        hostv@.len() as int,
                    ).contains(h) && !exists|q: Prefix|
                        root.terms().contains(q) && q.covers(h)));
                    if exists|q: Prefix| root.terms().contains(q) && q.covers(h) {
                        let q = choose|q: Prefix| root.terms().contains(q) && q.covers(h);
                        assert(reduced_set(netseq).contains(q) && q.covers(h));
                    }
                    if exists|q: Prefix| reduced_set(netseq).contains(q) && q.covers(h) {
                        let q = choose|q: Prefix| reduced_set(netseq).contains(q) && q.covers(h);
                        assert(root.terms().contains(q) && q.covers(h));
                    }
                }
            }
            assert(t.result_set() =~= reduced_set(prefixes@));
        }
        t
    }
}

/// The reduction engine for a mixed batch: one binary trie per address
/// family, each holding the minimal covering set of its family's input.
pub struct ReduceTrie {
    ipv4: Table,
    ipv6: Table,
}

impl ReduceTrie {
    /// Both family tables are well-formed and carry their own family.
    pub closed spec fn inv(self) -> bool {
        &&& self.ipv4.inv()
        &&& !self.ipv4.fam@
        &&& self.ipv6.inv()
        &&& self.ipv6.fam@
    }

    /// The set of prefixes the trie retains.
    pub closed spec fn result_set(self) -> Set<Prefix> {
        self.ipv4.result_set().union(self.ipv6.result_set())
    }

    /// Builds the reduction of `prefixes`: splits the batch by family and
    /// builds each family's table independently. The retained set is
    /// exactly the input entries that no other input entry strictly
    /// covers.
    pub fn from_prefixes(prefixes: Vec<Prefix>) -> (t: ReduceTrie)
        requires
            forall|j: int| 0 <= j < prefixes@.len() ==> (#[trigger] prefixes@[j]).wf(),
        ensures
            t.inv(),
            t.result_set() == reduced_set(prefixes@),
    {
        let mut v4: Vec<Prefix> = Vec::new();
        let mut v6: Vec<Prefix> = Vec::new();
        let mut i: usize = 0;
        while i < prefixes.len()
            invariant
                i <= prefixes@.len(),
                forall|j: int| 0 <= j < prefixes@.len() ==> (#[trigger] prefixes@[j]).wf(),
                forall|j: int|
                    0 <= j < v4@.len() ==> (#[trigger] v4@[j]).wf() && !v4@[j].v6,
                forall|j: int| 0 <= j < v6@.len() ==> (#[trigger] v6@[j]).wf() && v6@[j].v6,
                forall|x: Prefix|
                    v4@.contains(x) <==> (prefixes@.take(i as int).contains(x) && !x.v6),
                forall|x: Prefix|
                    v6@.contains(x) <==> (prefixes@.take(i as int).contains(x) && x.v6),
            decreases prefixes@.len() - i,
        {
            let p = prefixes[i];
            let ghost v40 = v4@;
            let ghost v60 = v6@;
            if p.v6 {
                v6.push(p);
            } else {
                v4.push(p);
            }
            proof {
                assert(prefixes@.take(i + 1) =~= prefixes@.take(i as int).push(p));
                assert forall|x: Prefix|
                    (v4@.contains(x) <==> (prefixes@.take(i + 1).contains(x) && !x.v6)) && (
                    v6@.contains(x) <==> (prefixes@.take(i + 1).contains(x) && x.v6)) by {
                    lemma_push_contains(v40, p, x);
                    lemma_push_contains(v60, p, x);
                    lemma_push_contains(prefixes@.take(i as int), p, x);
                }
            }
            i += 1;
        }
        proof {
            assert(prefixes@.take(prefixes@.len() as int) =~= prefixes@);
        }
        let ghost s4 = v4@;
        let ghost s6 = v6@;
        let t4 = Table::build_for_family(v4, Ghost(false));
        let t6 = Table::build_for_family(v6, Ghost(true));
        let t = ReduceTrie { ipv4: t4, ipv6: t6 };
        proof {
            lemma_family_split(prefixes@, s4, s6);
            assert(t.result_set() =~= reduced_set(prefixes@));
        }
        t
    }

    /// Returns all prefixes left after reduction: each family's trie is
    /// walked depth first, then each family's kept hosts are appended.
    /// Only the set of entries is specified; their order is not.
    pub fn get_all_prefixes(&self) -> (r: Vec<Prefix>)
        requires
            self.inv(),
        ensures
            r@.to_set() == self.result_set(),
    {
        let mut result: Vec<Prefix> = Vec::new();
        Node::collect_at(&self.ipv4.root, &mut result, Ghost(fam_root(false)));
        Node::collect_at(&self.ipv6.root, &mut result, Ghost(fam_root(true)));
        let ghost collected = result@;
        proof {
            assert(result@.to_set() =~= collected.to_set().union(
                self.ipv4.hosts@.take(0).to_set(),
            ));
        }
        let mut k: usize = 0;
        while k < self.ipv4.hosts.len()
            invariant
                k <= self.ipv4.hosts@.len(),
                result@.to_set() == collected.to_set().union(
                    self.ipv4.hosts@.take(k as int).to_set(),
                ),
            decreases self.ipv4.hosts@.len() - k,
        {
            let ghost r0 = result@;
            result.push(self.ipv4.hosts[k]);
            proof {
                assert(self.ipv4.hosts@.take(k + 1) =~= self.ipv4.hosts@.take(k as int).push(
                    self.ipv4.hosts@[k as int],
                ));
                assert forall|x: Prefix| #[trigger] result@.contains(x) <==> (collected.contains(
                    x,
                ) || self.ipv4.hosts@.take(k + 1).contains(x)) by {
                    lemma_push_contains(r0, self.ipv4.hosts@[k as int], x);
                    lemma_push_contains(
                        self.ipv4.hosts@.take(k as int),
                        self.ipv4.hosts@[k as int],
                        x,
                    );
                    assert(r0.contains(x) <==> r0.to_set().contains(x));
                    assert(r0.to_set().contains(x) <==> (collected.to_set().contains(x)
                        || self.ipv4.hosts@.take(k as int).to_set().contains(x)));
                }
                assert(result@.to_set() =~= collected.to_set().union(
                    self.ipv4.hosts@.take(k + 1).to_set(),
                ));
            }
            k += 1;
        }
        let ghost mid = result@;
        proof {
            assert(result@.to_set() =~= mid.to_set().union(self.ipv6.hosts@.take(0).to_set()));
        }
        let mut k: usize = 0;
        while k < self.ipv6.hosts.len()
            invariant
                k <= self.ipv6.hosts@.len(),
                result@.to_set() == mid.to_set().union(self.ipv6.hosts@.take(k as int).to_set()),
            decreases self.ipv6.hosts@.len() - k,
        {
            let ghost r0 = result@;
            result.push(self.ipv6.hosts[k]);
            proof {
                assert(self.ipv6.hosts@.take(k + 1) =~= self.ipv6.hosts@.take(k as int).push(
                    self.ipv6.hosts@[k as int],
                ));
                assert forall|x: Prefix| #[trigger] result@.contains(x) <==> (mid.contains(x)
                    || self.ipv6.hosts@.take(k + 1).contains(x)) by {
                    lemma_push_contains(r0, self.ipv6.hosts@[k as int], x);
                    lemma_push_contains(
                        self.ipv6.hosts@.take(k as int),
                        self.ipv6.hosts@[k as int],
                        x,
                    );
                    assert(r0.contains(x) <==> r0.to_set().contains(x));
                    assert(r0.to_set().contains(x) <==> (mid.to_set().contains(x)
                        || self.ipv6.hosts@.take(k as int).to_set().contains(x)));
                }
                assert(result@.to_set() =~= mid.to_set().union(
                    self.ipv6.hosts@.take(k + 1).to_set(),
                ));
            }
            k += 1;
        }
        proof {
            assert(self.ipv4.hosts@.take(self.ipv4.hosts@.len() as int) =~= self.ipv4.hosts@);
            assert(self.ipv6.hosts@.take(self.ipv6.hosts@.len() as int) =~= self.ipv6.hosts@);
            assert(result@.to_set() =~= self.result_set());
        }
        result
    }
}

} // verus!
