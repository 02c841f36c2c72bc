//! A router that tries its routes one after another, in the order they were
//! registered.
use vstd::prelude::*;
use crate::params::PathParams;
use crate::path::{is_param, param_name, path_segments, split_path, strings_view, is_param_segment, param_name_of};

verus! {

/// A route as the router reads it: method, segments, handler.
pub type RouteView<H> = (Seq<char>, Seq<Seq<char>>, H);

/// A registered segment accepts an actual one when it names a parameter or
/// is the same text.
pub open spec fn segment_fits(pattern: Seq<char>, actual: Seq<char>) -> bool {
    is_param(pattern) || pattern == actual
}

/// A route accepts a request when the methods are the same, the numbers of
/// segments are the same, and each registered segment accepts the request's.
pub open spec fn route_fits(
    route_method: Seq<char>,
    route_segs: Seq<Seq<char>>,
    method: Seq<char>,
    segs: Seq<Seq<char>>,
) -> bool {
    &&& route_method == method
    &&& route_segs.len() == segs.len()
    &&& forall|i: int| 0 <= i < segs.len() ==> segment_fits(#[trigger] route_segs[i], segs[i])
}

/// The parameters that the first `m` registered segments take from the
/// request's segments: each parameter segment records the actual segment at
/// its place under its name, a later one overriding an earlier one.
pub open spec fn captures_prefix(route_segs: Seq<Seq<char>>, segs: Seq<Seq<char>>, m: nat) -> Map<Seq<char>, Seq<char>>
    decreases m,
{
    if m == 0 {
        Map::empty()
    } else {
        let prev = captures_prefix(route_segs, segs, (m - 1) as nat);
        if is_param(route_segs[m - 1]) {
            prev.insert(param_name(route_segs[m - 1]), segs[m - 1])
        } else {
            prev
        }
    }
}

/// The parameters that a route takes from a request it accepts.
pub open spec fn captures(route_segs: Seq<Seq<char>>, segs: Seq<Seq<char>>) -> Map<Seq<char>, Seq<char>> {
    captures_prefix(route_segs, segs, route_segs.len())
}

/// The position of the first route of `routes` that accepts the request.
pub open spec fn first_fitting<H>(routes: Seq<RouteView<H>>, method: Seq<char>, segs: Seq<Seq<char>>) -> Option<int>
    decreases routes.len(),
{
    if routes.len() == 0 {
        None
    } else {
        match first_fitting(routes.drop_last(), method, segs) {
            Some(i) => Some(i),
            None => if route_fits(routes.last().0, routes.last().1, method, segs) {
                Some(routes.len() - 1)
            } else {
                None
            },
        }
    }
}

/// The handler and parameters a request gets from `routes`: those of the
/// first route that accepts it.
pub open spec fn dispatch_result<H>(
    routes: Seq<RouteView<H>>,
    method: Seq<char>,
    path: Seq<char>,
) -> Option<(H, Map<Seq<char>, Seq<char>>)> {
    let segs = path_segments(path);
    match first_fitting(routes, method, segs) {
        Some(i) => Some((routes[i].2, captures(routes[i].1, segs))),
        None => None,
    }
}

struct RouteEntry<H> {
    method: String,
    path_segments: Vec<String>,
    handler: H,
}

/// A list of routes, tried in the order they were registered.
pub struct MyRouter<H> {
    routes: Vec<RouteEntry<H>>,
}

impl<H> View for MyRouter<H> {
    type V = Seq<RouteView<H>>;

    closed spec fn view(&self) -> Seq<RouteView<H>> {
        self.routes@.map_values(|e: RouteEntry<H>| (e.method@, strings_view(e.path_segments@), e.handler))
    }
}

proof fn lemma_first_fitting_prefix<H>(routes: Seq<RouteView<H>>, method: Seq<char>, segs: Seq<Seq<char>>, n: int)
    requires
        0 <= n <= routes.len(),
        forall|j: int| 0 <= j < n ==> !route_fits(#[trigger] routes[j].0, routes[j].1, method, segs),
    ensures
        first_fitting(routes.take(n), method, segs) is None,
    decreases n,
{
    if n > 0 {
        assert(routes.take(n).drop_last() =~= routes.take(n - 1));
        lemma_first_fitting_prefix(routes, method, segs, n - 1);
        assert(routes.take(n).last() == routes[n - 1]);
    }
}

proof fn lemma_first_fitting_found<H>(routes: Seq<RouteView<H>>, method: Seq<char>, segs: Seq<Seq<char>>, i: int)
    requires
        0 <= i < routes.len(),
        forall|j: int| 0 <= j < i ==> !route_fits(#[trigger] routes[j].0, routes[j].1, method, segs),
        route_fits(routes[i].0, routes[i].1, method, segs),
    ensures
        first_fitting(routes, method, segs) == Some(i),
    decreases routes.len(),
{
    if routes.len() > i + 1 {
        lemma_first_fitting_found(routes.drop_last(), method, segs, i);
    } else {
        lemma_first_fitting_prefix(routes, method, segs, i);
        assert(routes.drop_last() =~= routes.take(i));
    }
}

impl<H> MyRouter<H> {
    /// A router with no routes.
    pub fn new() -> (r: Self)
        ensures
            r@ == Seq::<RouteView<H>>::empty(),
    {
        let r = MyRouter { routes: Vec::new() };
        assert(r@ =~= Seq::<RouteView<H>>::empty());
        r
    }

    /// Adds a route for `method` and the path pattern `path` (a segment
    /// starting with `:` names a parameter), after all routes already there.
    pub fn route(self, method: &str, path: &str, handler: H) -> (r: Self)
        ensures
            r@ == self@.push((method@, path_segments(path@), handler)),
    {
        let ghost before = self@;
        let mut router = self;
        let segs = split_path(path);
        router.routes.push(RouteEntry { method: method.to_owned(), path_segments: segs, handler });
        assert(router@ =~= before.push((method@, path_segments(path@), handler)));
        router
    }

    /// Whether the route at `i` accepts the request, and what it captures.
    fn try_route(&self, i: usize, method: &String, segs: &Vec<String>) -> (r: Option<PathParams>)
        requires
            i < self@.len(),
        ensures
            r is Some <==> route_fits(self@[i as int].0, self@[i as int].1, method@, strings_view(segs@)),
            r matches Some(p) ==> p@ == captures(self@[i as int].1, strings_view(segs@)),
    {
        let route = &self.routes[i];
        let ghost rs = strings_view(route.path_segments@);
        let ghost ss = strings_view(segs@);
        assert(self@[i as int].1 == rs);
        if route.method != *method || route.path_segments.len() != segs.len() {
            return None;
        }
        let mut params = PathParams::new();
        let mut j: usize = 0;
        while j < route.path_segments.len()
            invariant
                rs == strings_view(route.path_segments@),
                ss == strings_view(segs@),
                i < self@.len(),
                self@[i as int].1 == rs,
                self@[i as int].0 == method@,
                rs.len() == ss.len(),
                j <= rs.len(),
                forall|k: int| 0 <= k < j ==> segment_fits(#[trigger] rs[k], ss[k]),
                params@ == captures_prefix(rs, ss, j as nat),
            decreases rs.len() - j,
        {
            let registered = &route.path_segments[j];
            let actual = &segs[j];
            if is_param_segment(registered.as_str()) {
                let name = param_name_of(registered.as_str());
                params.insert(name, actual.clone());
            } else if *registered != *actual {
                assert(!segment_fits(rs[j as int], ss[j as int]));
                return None;
            }
            j = j + 1;
        }
        Some(params)
    }

    /// The handler and parameters for a request with `method` and `path`:
    /// those of the first registered route that accepts it, or `None` when no
    /// route does.
    pub fn dispatch(&self, method: &str, path: &str) -> (r: Option<(&H, PathParams)>)
        ensures
            match (r, dispatch_result(self@, method@, path@)) {
                (None, None) => true,
                (Some((h, p)), Some((h2, p2))) => *h == h2 && p@ == p2,
                _ => false,
            },
    {
        let req_method = method.to_owned();
        let req_segments = split_path(path);
        let ghost segs = path_segments(path@);
        let mut i: usize = 0;
        while i < self.routes.len()
            invariant
                i <= self@.len(),
                self@.len() == self.routes@.len(),
                req_method@ == method@,
                strings_view(req_segments@) == segs,
                segs == path_segments(path@),
                forall|j: int| 0 <= j < i ==> !route_fits(#[trigger] self@[j].0, self@[j].1, method@, segs),
            decreases self.routes@.len() - i,
        {
            match self.try_route(i, &req_method, &req_segments) {
                Some(params) => {
                    proof {
                        lemma_first_fitting_found(self@, method@, segs, i as int);
                    }
                    return Some((&self.routes[i].handler, params));
                },
                None => {},
            }
            i = i + 1;
        }
        proof {
            lemma_first_fitting_prefix(self@, method@, segs, self@.len() as int);
            assert(self@.take(self@.len() as int) =~= self@);
        }
        None
    }
}

proof fn lemma_first_fitting_range<H>(routes: Seq<RouteView<H>>, method: Seq<char>, segs: Seq<Seq<char>>)
    ensures
        first_fitting(routes, method, segs) matches Some(i) ==> 0 <= i < routes.len() && route_fits(
            routes[i].0,
            routes[i].1,
            method,
            segs,
        ),
    decreases routes.len(),
{
    if routes.len() > 0 {
        lemma_first_fitting_range(routes.drop_last(), method, segs);
    }
}

/// Adding a route changes only what happens to requests that no route
/// already there accepts: those go to the new route when it accepts them.
pub proof fn law_earlier_routes_win<H>(routes: Seq<RouteView<H>>, method: Seq<char>, path: Seq<char>, extra: RouteView<H>)
    ensures
        dispatch_result(routes.push(extra), method, path) == match dispatch_result(routes, method, path) {
            Some(x) => Some(x),
            None => if route_fits(extra.0, extra.1, method, path_segments(path)) {
                Some((extra.2, captures(extra.1, path_segments(path))))
            } else {
                None
            },
        },
{
    assert(routes.push(extra).drop_last() =~= routes);
    let segs = path_segments(path);
    lemma_first_fitting_range(routes, method, segs);
    match first_fitting(routes, method, segs) {
        Some(i) => {
            assert(routes.push(extra)[i] == routes[i]);
        },
        None => {},
    }
}

proof fn lemma_some_fit_found<H>(routes: Seq<RouteView<H>>, method: Seq<char>, segs: Seq<Seq<char>>, i: int)
    requires
        0 <= i < routes.len(),
        route_fits(routes[i].0, routes[i].1, method, segs),
    ensures
        first_fitting(routes, method, segs) is Some,
    decreases routes.len(),
{
    if i < routes.len() - 1 {
        lemma_some_fit_found(routes.drop_last(), method, segs, i);
    }
}

/// A request written exactly as a registered route's pattern, with that
/// route's method, is always answered by some route.
pub proof fn law_pattern_text_is_answered<H>(routes: Seq<RouteView<H>>, i: int, path: Seq<char>)
    requires
        0 <= i < routes.len(),
        routes[i].1 == path_segments(path),
    ensures
        dispatch_result(routes, routes[i].0, path) is Some,
{
    lemma_some_fit_found(routes, routes[i].0, path_segments(path), i);
}

proof fn lemma_captures_prefix(rs: Seq<Seq<char>>, segs: Seq<Seq<char>>, m: nat)
    requires
        m <= rs.len(),
        rs.len() == segs.len(),
    ensures
        forall|i: int| 0 <= i < m && is_param(rs[i]) ==> #[trigger] captures_prefix(rs, segs, m).contains_key(
            param_name(rs[i]),
        ),
        forall|name: Seq<char>| #[trigger] captures_prefix(rs, segs, m).contains_key(name) ==> exists|i: int|
            0 <= i < m && is_param(#[trigger] rs[i]) && param_name(rs[i]) == name,
        forall|i: int|
            0 <= i < m && is_param(rs[i]) && (forall|j: int|
                0 <= j < m && j != i && is_param(rs[j]) ==> param_name(#[trigger] rs[j]) != param_name(rs[i]))
                ==> captures_prefix(rs, segs, m)[param_name(#[trigger] rs[i])] == segs[i],
    decreases m,
{
    if m > 0 {
        lemma_captures_prefix(rs, segs, (m - 1) as nat);
        let prev = captures_prefix(rs, segs, (m - 1) as nat);
        assert forall|name: Seq<char>| #[trigger] captures_prefix(rs, segs, m).contains_key(name) implies exists|i: int|
            0 <= i < m && is_param(#[trigger] rs[i]) && param_name(rs[i]) == name by {
            if prev.contains_key(name) {
                let i = choose|i: int| 0 <= i < m - 1 && is_param(#[trigger] rs[i]) && param_name(rs[i]) == name;
                assert(0 <= i < m && is_param(rs[i]) && param_name(rs[i]) == name);
            } else {
                assert(is_param(rs[m - 1]) && param_name(rs[m - 1]) == name);
            }
        }
    }
}

/// What a route takes from a request: every parameter segment's name is
/// present; nothing else is; and a parameter whose name no other parameter
/// segment shares gets the request's segment at its place.
pub proof fn law_captures_by_name(rs: Seq<Seq<char>>, segs: Seq<Seq<char>>)
    requires
        rs.len() == segs.len(),
    ensures
        forall|i: int| 0 <= i < rs.len() && is_param(rs[i]) ==> #[trigger] captures(rs, segs).contains_key(
            param_name(rs[i]),
        ),
        forall|name: Seq<char>| #[trigger] captures(rs, segs).contains_key(name) ==> exists|i: int|
            0 <= i < rs.len() && is_param(#[trigger] rs[i]) && param_name(rs[i]) == name,
        forall|i: int|
            0 <= i < rs.len() && is_param(rs[i]) && (forall|j: int|
                0 <= j < rs.len() && j != i && is_param(rs[j]) ==> param_name(#[trigger] rs[j]) != param_name(rs[i]))
                ==> captures(rs, segs)[param_name(#[trigger] rs[i])] == segs[i],
{
    lemma_captures_prefix(rs, segs, rs.len());
}

/// A route accepts a request exactly when the methods are the same, the
/// request has as many segments as the route, and every segment of the
/// route that does not name a parameter is the request's segment at that
/// place, character for character.
pub proof fn law_route_fits_exactly(
    route_method: Seq<char>,
    route_segs: Seq<Seq<char>>,
    method: Seq<char>,
    segs: Seq<Seq<char>>,
)
    ensures
        route_fits(route_method, route_segs, method, segs) <==> {
            &&& route_method == method
            &&& route_segs.len() == segs.len()
            &&& forall|i: int| 0 <= i < segs.len() && !is_param(#[trigger] route_segs[i]) ==> route_segs[i] == segs[i]
        },
{
}

/// A request answered by a router is answered by a route registered with
/// its method, with as many segments as the request's path, whose literal
/// segments are the path's segments at the same places; no route
/// registered before it accepts the request; and the parameters are what
/// that route captures. A request that some route accepts is answered.
pub proof fn law_dispatch_exact<H>(routes: Seq<RouteView<H>>, method: Seq<char>, path: Seq<char>)
    ensures
        dispatch_result(routes, method, path) matches Some((h, p)) ==> exists|i: int|
            0 <= i < routes.len() && #[trigger] routes[i].2 == h && routes[i].0 == method && routes[i].1.len()
                == path_segments(path).len() && (forall|j: int|
                0 <= j < routes[i].1.len() && !is_param(#[trigger] routes[i].1[j]) ==> routes[i].1[j]
                    == path_segments(path)[j]) && p == captures(routes[i].1, path_segments(path)) && (forall|k: int|
                0 <= k < i ==> !route_fits(#[trigger] routes[k].0, routes[k].1, method, path_segments(path))),
        (exists|i: int| 0 <= i < routes.len() && route_fits(#[trigger] routes[i].0, routes[i].1, method, path_segments(path)))
            ==> dispatch_result(routes, method, path) is Some,
{
    let segs = path_segments(path);
    lemma_first_fitting_range(routes, method, segs);
    lemma_first_fitting_earliest(routes, method, segs);
    if exists|i: int| 0 <= i < routes.len() && route_fits(#[trigger] routes[i].0, routes[i].1, method, segs) {
        let i = choose|i: int| 0 <= i < routes.len() && route_fits(#[trigger] routes[i].0, routes[i].1, method, segs);
        lemma_some_fit_found(routes, method, segs, i);
    }
    if let Some(i) = first_fitting(routes, method, segs) {
        assert(route_fits(routes[i].0, routes[i].1, method, segs));
        assert(routes[i].2 == dispatch_result(routes, method, path).unwrap().0);
    }
}

proof fn lemma_first_fitting_earliest<H>(routes: Seq<RouteView<H>>, method: Seq<char>, segs: Seq<Seq<char>>)
    ensures
        first_fitting(routes, method, segs) matches Some(i) ==> forall|k: int|
            0 <= k < i ==> !route_fits(#[trigger] routes[k].0, routes[k].1, method, segs),
    decreases routes.len(),
{
    if routes.len() > 0 {
        let prev = routes.drop_last();
        lemma_first_fitting_earliest(prev, method, segs);
        lemma_first_fitting_range(prev, method, segs);
        if let Some(i) = first_fitting(routes, method, segs) {
            assert forall|k: int| 0 <= k < i implies !route_fits(#[trigger] routes[k].0, routes[k].1, method, segs) by {
                assert(routes[k] == prev[k]);
                if first_fitting(prev, method, segs) is None {
                    lemma_no_fit_before(prev, method, segs, k);
                }
            }
        }
    }
}

proof fn lemma_no_fit_before<H>(routes: Seq<RouteView<H>>, method: Seq<char>, segs: Seq<Seq<char>>, k: int)
    requires
        first_fitting(routes, method, segs) is None,
        0 <= k < routes.len(),
    ensures
        !route_fits(routes[k].0, routes[k].1, method, segs),
{
    if route_fits(routes[k].0, routes[k].1, method, segs) {
        lemma_some_fit_found(routes, method, segs, k);
    }
}

} // verus!
