//! The batch entry point: text lines in, reduced CIDR text out. Lines
//! that parse become the engine's input; the engine removes every entry
//! that a broader entry of the same family covers; the survivors come
//! back as canonical CIDR text.

use vstd::prelude::*;

use crate::cidr;
use crate::cidr::{parse_spec, prefix_text};
use crate::prefix::{reduced_set, survives, Prefix};
use crate::reduce_trie::ReduceTrie;

verus! {

/// The prefixes that a batch of text lines denotes, in order: each line
/// is parsed, and lines that fit no accepted syntax are dropped.
pub open spec fn parsed_prefixes(lines: Seq<Seq<char>>) -> Seq<Prefix>
    decreases lines.len(),
{
    if lines.len() == 0 {
        Seq::empty()
    } else {
        let rest = parsed_prefixes(lines.drop_last());
        match parse_spec(lines.last()) {
            Some(p) => rest.push(p),
            None => rest,
        }
    }
}

/// The text of the reduced set of a batch of lines: what reducing the
/// prefixes the lines denote leaves over, each formatted as CIDR text.
pub open spec fn reduced_texts(lines: Seq<Seq<char>>) -> Set<Seq<char>> {
    reduced_set(parsed_prefixes(lines)).map(|p: Prefix| prefix_text(p))
}

/// A prefix is denoted by a batch exactly when some line of the batch
/// parses to it.
proof fn lemma_parsed_contains(lines: Seq<Seq<char>>, p: Prefix)
    ensures
        parsed_prefixes(lines).contains(p) <==> exists|i: int|
            0 <= i < lines.len() && parse_spec(#[trigger] lines[i]) == Some(p),
    decreases lines.len(),
{
    if lines.len() > 0 {
        let front = lines.drop_last();
        lemma_parsed_contains(front, p);
        let rest = parsed_prefixes(front);
        assert forall|i: int| 0 <= i < front.len() implies front[i] == lines[i] by {}
        if parsed_prefixes(lines).contains(p) {
            match parse_spec(lines.last()) {
                Some(q) => {
                    crate::prefix::lemma_push_contains(rest, q, p);
                    if p == q {
                        assert(parse_spec(lines[lines.len() - 1]) == Some(p));
                    } else {
                        let i = choose|i: int|
                            0 <= i < front.len() && parse_spec(#[trigger] front[i]) == Some(p);
                        assert(parse_spec(lines[i]) == Some(p));
                    }
                },
                None => {
                    let i = choose|i: int|
                        0 <= i < front.len() && parse_spec(#[trigger] front[i]) == Some(p);
                    assert(parse_spec(lines[i]) == Some(p));
                },
            }
        }
        if exists|i: int| 0 <= i < lines.len() && parse_spec(#[trigger] lines[i]) == Some(p) {
            let i = choose|i: int|
                0 <= i < lines.len() && parse_spec(#[trigger] lines[i]) == Some(p);
            match parse_spec(lines.last()) {
                Some(q) => {
                    crate::prefix::lemma_push_contains(rest, q, p);
                    if i < lines.len() - 1 {
                        assert(parse_spec(front[i]) == Some(p));
                        assert(rest.contains(p));
                    }
                },
                None => {
                    assert(i < lines.len() - 1);
                    assert(parse_spec(front[i]) == Some(p));
                },
            }
        }
    }
}

/// Permutation invariance at the text boundary: reordering the input
/// lines, or repeating lines, never changes the reduced text set.
pub proof fn lemma_line_permutation(l1: Seq<Seq<char>>, l2: Seq<Seq<char>>)
    requires
        l1.to_multiset() == l2.to_multiset(),
    ensures
        reduced_texts(l1) == reduced_texts(l2),
{
    crate::prefix::lemma_multiset_same_contains(l1, l2);
    assert forall|p: Prefix| parsed_prefixes(l1).contains(p) <==> parsed_prefixes(l2).contains(
        p,
    ) by {
        lemma_parsed_contains(l1, p);
        lemma_parsed_contains(l2, p);
        if exists|i: int| 0 <= i < l1.len() && parse_spec(#[trigger] l1[i]) == Some(p) {
            let i = choose|i: int| 0 <= i < l1.len() && parse_spec(#[trigger] l1[i]) == Some(p);
            assert(l1.contains(l1[i]));
            assert(l2.contains(l1[i]));
            let j = choose|j: int| 0 <= j < l2.len() && l2[j] == l1[i];
            assert(parse_spec(l2[j]) == Some(p));
        }
        if exists|i: int| 0 <= i < l2.len() && parse_spec(#[trigger] l2[i]) == Some(p) {
            let i = choose|i: int| 0 <= i < l2.len() && parse_spec(#[trigger] l2[i]) == Some(p);
            assert(l2.contains(l2[i]));
            assert(l1.contains(l2[i]));
            let j = choose|j: int| 0 <= j < l1.len() && l1[j] == l2[i];
            assert(parse_spec(l1[j]) == Some(p));
        }
    }
    crate::prefix::lemma_reduce_same_elements(parsed_prefixes(l1), parsed_prefixes(l2));
}

/// Reduces a batch of lines holding IP addresses and CIDR blocks, both
/// families mixed: lines that parse to a prefix already covered by a
/// broader parsed entry are dropped, and the survivors are returned as
/// CIDR text (single addresses as `/32` or `/128`). Lines that do not
/// parse are silently ignored. The set of returned texts is specified;
/// their order is not.
pub fn reduce_cidrs(lines: Vec<String>) -> (r: Vec<String>)
    ensures
        r@.map(|i: int, s: String| s@).to_set() == reduced_texts(
            lines@.map(|i: int, l: String| l@),
        ),
{
    let ghost lv = lines@.map(|i: int, l: String| l@);
    let mut prefixes: Vec<Prefix> = Vec::new();
    proof {
        assert(lv.take(0) =~= Seq::<Seq<char>>::empty());
        assert(prefixes@ =~= parsed_prefixes(lv.take(0)));
    }
    let mut i: usize = 0;
    while i < lines.len()
        invariant
            i <= lines@.len(),
            lv == lines@.map(|i: int, l: String| l@),
            prefixes@ == parsed_prefixes(lv.take(i as int)),
            forall|j: int| 0 <= j < prefixes@.len() ==> (#[trigger] prefixes@[j]).wf(),
        decreases lines@.len() - i,
    {
        let line = &lines[i];
        let parsed = cidr::from_str(line.as_str());
        proof {
            assert(lv.take(i + 1).drop_last() =~= lv.take(i as int));
            assert(lv.take(i + 1).last() == lines@[i as int]@);
        }
        if let Some(p) = parsed {
            prefixes.push(p);
        }
        i += 1;
    }
    proof {
        assert(lv.take(lv.len() as int) =~= lv);
    }
    let trie = ReduceTrie::from_prefixes(prefixes);
    let reduced = trie.get_all_prefixes();
    let ghost pool = prefixes@;
    let mut out: Vec<String> = Vec::new();
    proof {
        assert(out@.map(|i: int, s: String| s@) =~= reduced@.take(0).map(
            |i: int, p: Prefix| prefix_text(p),
        ));
    }
    let mut k: usize = 0;
    while k < reduced.len()
        invariant
            k <= reduced@.len(),
            reduced@.to_set() == reduced_set(pool),
            forall|j: int| 0 <= j < pool.len() ==> (#[trigger] pool[j]).wf(),
            out@.map(|i: int, s: String| s@) == reduced@.take(k as int).map(
                |i: int, p: Prefix| prefix_text(p),
            ),
        decreases reduced@.len() - k,
    {
        let p = reduced[k];
        proof {
            assert(reduced@.contains(p));
            assert(reduced@.to_set().contains(p));
            assert(survives(p, pool));
            let j = choose|j: int| 0 <= j < pool.len() && pool[j] == p;
            assert(p.wf());
        }
        let ghost out0 = out@;
        let text = cidr::format_prefix(&p);
        out.push(text);
        proof {
            let fm = |i: int, s: String| s@;
            let fp = |i: int, p: Prefix| prefix_text(p);
            assert(out0.map(fm) == reduced@.take(k as int).map(fp));
            assert(out0.map(fm).len() == out0.len());
            assert(reduced@.take(k as int).map(fp).len() == k);
            assert(out0.len() == k);
            assert(out@ == out0.push(text));
            assert(out@.len() == k + 1);
            assert(reduced@.take(k + 1) =~= reduced@.take(k as int).push(p));
            assert forall|idx: int| 0 <= idx < out@.len() implies #[trigger] out@.map(fm)[idx]
                == reduced@.take(k + 1).map(fp)[idx] by {
                if idx < k {
                    assert(out@[idx] == out0[idx]);
                    assert(out0.map(fm)[idx] == reduced@.take(k as int).map(fp)[idx]);
                    assert(reduced@.take(k + 1)[idx] == reduced@.take(k as int)[idx]);
                } else {
                    assert(out@[idx] == text);
                    assert(reduced@.take(k + 1)[idx] == p);
                }
            }
            assert(out@.map(fm) =~= reduced@.take(k + 1).map(fp));
        }
        k += 1;
    }
    proof {
        assert(reduced@.take(reduced@.len() as int) =~= reduced@);
        assert(out@.map(|i: int, s: String| s@).to_set() =~= reduced_set(pool).map(
            |p: Prefix| prefix_text(p),
        )) by {
            let texts = out@.map(|i: int, s: String| s@);
            let image = reduced_set(pool).map(|p: Prefix| prefix_text(p));
            assert forall|y: Seq<char>| #[trigger] texts.to_set().contains(y) implies
                image.contains(y) by {
                let j = choose|j: int| 0 <= j < texts.len() && texts[j] == y;
                let p = reduced@[j];
                assert(reduced@.contains(p));
                assert(reduced@.to_set().contains(p));
                assert(prefix_text(p) == y);
            }
            assert forall|y: Seq<char>| #[trigger] image.contains(y) implies
                texts.to_set().contains(y) by {
                let p = choose|p: Prefix| reduced_set(pool).contains(p) && y == prefix_text(p);
                assert(reduced@.to_set().contains(p));
                let j = choose|j: int| 0 <= j < reduced@.len() && reduced@[j] == p;
                assert(texts[j] == y);
                assert(texts.contains(y));
            }
        }
    }
    out
}

} // verus!
