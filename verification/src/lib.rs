//! Reduction of mixed IPv4/IPv6 prefix lists to their minimal covering set.
//!
//! The engine takes a batch of CIDR prefixes and single addresses and removes
//! every entry that is already covered by a broader entry of the same address
//! family, using a binary trie keyed on address bits.

use vstd::prelude::*;

pub mod bucket;
pub mod cidr;
pub mod cli;
pub mod output_format;
pub mod parse;
pub mod prefix;
pub mod reduce;
pub mod reduce_prefix_list;
pub mod reduce_trie;

verus! {

/// Reduces a list of CIDR notations and IP addresses by removing
/// redundant entries: an entry already covered by a broader entry of the
/// same address family is dropped, and single addresses come back in
/// CIDR form (`/32` or `/128`). Lines that do not parse are silently
/// ignored. The set of returned texts is specified; their order is not.
pub fn reduce_cidrs(lines: Vec<String>) -> (r: Vec<String>)
    ensures
        r@.map(|i: int, s: String| s@).to_set() == crate::reduce::reduced_texts(
            lines@.map(|i: int, l: String| l@),
        ),
{
    crate::reduce::reduce_cidrs(lines)
}

} // verus!
