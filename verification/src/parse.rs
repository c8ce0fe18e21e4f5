//! The parsing collaborator's public entry point: one trimmed text line
//! becomes a prefix, or nothing when the line fits no accepted syntax.

use vstd::prelude::*;

use crate::cidr;
use crate::cidr::parse_spec;
use crate::prefix::Prefix;

verus! {

/// Parses a string into a prefix: CIDR notation, a bare IPv4 address
/// (read as `/32`) or a bare IPv6 address (read as `/128`), after
/// trimming surrounding whitespace. Text that fits none of these forms
/// yields `None`.
pub fn parse_to_cidr(s: &str) -> (r: Option<Prefix>)
    ensures
        r == parse_spec(s@),
        r matches Some(p) ==> p.wf(),
{
    cidr::from_str(s)
}

} // verus!
