//! Size expressions are parsed by fasteval.

use vstd::prelude::*;

verus! {

/// Whether fasteval's parser, with its default limits and a fresh slab,
/// accepts `s` as an expression.
pub uninterp spec fn expression_parses(s: Seq<char>) -> bool;

/// Relies on `fasteval::Parser::parse_noclear`: whether the text parses as
/// an expression depends on the text alone; on failure, its error rendered
/// with `Debug`.
#[verifier::external_body]
pub(crate) fn check_expression(value: &str) -> (r: Result<(), String>)
    ensures
        r is Ok == expression_parses(value@),
{
    let mut slab = fasteval::Slab::new();
    fasteval::Parser::new()
        .parse_noclear(value, &mut slab.ps)
        .map(|_| ())
        .map_err(|e| format!("{:?}", e))
}

} // verus!
