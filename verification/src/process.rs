//! Matching a request against a route tree by literal segments only.
use vstd::prelude::*;
use crate::params::{PathParams, bound_params};
use crate::path::{path_segments, strings_view};
use crate::redixtree::HashRadixNode;

verus! {

/// Finds the route stored under exactly the segments `segments` below
/// `node`, with the parameters that its rule takes from `captured_params`.
/// A request must not end at a node where no route ends but some route
/// passes through.
pub fn node_match<'a, H>(
    node: &'a HashRadixNode<H>,
    segments: &[String],
    captured_params: &PathParams,
) -> (r: Option<(&'a H, PathParams)>)
    requires
        node.well_formed(),
        (segments@.len() == 0 || exists|more: Seq<Seq<char>>|
            #[trigger] node@.contains_key(strings_view(segments@) + more)) ==> node@.contains_key(strings_view(segments@)),
    ensures
        r is Some <==> node@.contains_key(strings_view(segments@)),
        r matches Some((h, p)) ==> *h == node@[strings_view(segments@)].1 && p@ == bound_params(
            path_segments(node@[strings_view(segments@)].0),
            captured_params@,
        ),
{
    assert(strings_view(segments@).subrange(0, segments@.len() as int) =~= strings_view(segments@));
    node.match_exact_from(segments, 0, captured_params)
}

} // verus!
