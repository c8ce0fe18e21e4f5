//! Length bucketing: reorders a batch of prefixes so that broader (shorter)
//! prefixes come first. Trie insertion relies on this order. Prefix lengths
//! are bounded (at most 128), so one pass per possible length suffices
//! instead of a comparison sort over the whole set.

use vstd::prelude::*;

use crate::prefix::Prefix;

verus! {

broadcast use vstd::seq_lib::group_to_multiset_ensures, vstd::multiset::group_multiset_axioms;

/// Entries appear in ascending order of prefix length.
pub open spec fn sorted_by_len(s: Seq<Prefix>) -> bool {
    forall|i: int, j: int| 0 <= i < j < s.len() ==> s[i].len <= s[j].len
}

/// Reorders `prefixes` so that all prefixes of a shorter length appear
/// before all prefixes of a longer one; the relative order within one
/// length is unspecified. The result holds exactly the input entries.
pub fn sort_prefixes(prefixes: Vec<Prefix>) -> (r: Vec<Prefix>)
    requires
        forall|i: int| 0 <= i < prefixes@.len() ==> (#[trigger] prefixes@[i]).wf(),
    ensures
        r@.to_multiset() == prefixes@.to_multiset(),
        sorted_by_len(r@),
{
    let ghost all = prefixes@;
    let mut out: Vec<Prefix> = Vec::new();
    let mut l: u16 = 0;
    while l <= 128
        invariant
            forall|i: int| 0 <= i < all.len() ==> (#[trigger] all[i]).wf(),
            prefixes@ == all,
            out@.to_multiset() == all.to_multiset().filter(
                |p: Prefix| (p.len as int) < l as int,
            ),
            forall|k: int| 0 <= k < out@.len() ==> (#[trigger] out@[k]).len < l as int,
            sorted_by_len(out@),
        decreases 129 - l as int,
    {
        let ghost start = out@;
        let mut i: usize = 0;
        while i < prefixes.len()
            invariant
                forall|k: int| 0 <= k < all.len() ==> (#[trigger] all[k]).wf(),
                prefixes@ == all,
                i <= all.len(),
                out@.to_multiset() == all.to_multiset().filter(
                    |p: Prefix| (p.len as int) < l as int,
                ).add(all.take(i as int).to_multiset().filter(|p: Prefix| p.len as int == l as int)),
                forall|k: int| 0 <= k < out@.len() ==> (#[trigger] out@[k]).len <= l as int,
                sorted_by_len(out@),
                l <= 128,
            decreases all.len() - i as int,
        {
            let ghost before = out@;
            let p = prefixes[i];
            if p.len as u16 == l {
                out.push(p);
            }
            proof {
                assert(all.take(i + 1 as int) =~= all.take(i as int).push(all[i as int]));
                let low = |p: Prefix| (p.len as int) < l as int;
                let same = |p: Prefix| p.len as int == l as int;
                if p.len as u16 == l {
                    assert(out@.to_multiset() == all.to_multiset().filter(low).add(
                        all.take(i + 1 as int).to_multiset().filter(same),
                    )) by {
                        assert(out@ == before.push(p));
                        assert(out@.to_multiset() =~= all.to_multiset().filter(low).add(
                            all.take(i + 1 as int).to_multiset().filter(same),
                        ));
                    }
                } else {
                    assert(out@.to_multiset() == all.to_multiset().filter(low).add(
                        all.take(i + 1 as int).to_multiset().filter(same),
                    )) by {
                        assert(out@.to_multiset() =~= all.to_multiset().filter(low).add(
                            all.take(i + 1 as int).to_multiset().filter(same),
                        ));
                    }
                }
            }
            i += 1;
        }
        proof {
            let low = |p: Prefix| (p.len as int) < l as int;
            let same = |p: Prefix| p.len as int == l as int;
            let next = |p: Prefix| (p.len as int) < l + 1 as int;
            assert(all.take(all.len() as int) =~= all);
            assert(out@.to_multiset() == all.to_multiset().filter(next)) by {
                assert(out@.to_multiset() =~= all.to_multiset().filter(next));
            }
        }
        l += 1;
    }
    proof {
        let fits = |p: Prefix| (p.len as int) < 129;
        assert(out@.to_multiset() == all.to_multiset()) by {
            assert forall|v: Prefix| all.to_multiset().count(v) > 0 implies fits(v) by {
                assert(all.contains(v));
                let k = choose|k: int| 0 <= k < all.len() && all[k] == v;
                assert(all[k].wf());
            }
            assert(out@.to_multiset() =~= all.to_multiset());
        }
    }
    out
}

} // verus!
