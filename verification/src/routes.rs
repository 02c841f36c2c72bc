//! The route tables that a radix tree stands for, and how a request walks them.
//!
//! A table maps a sequence of keys (see `path::route_key`) to what is stored
//! at the end of that sequence.
use vstd::prelude::*;
use crate::path::{is_param, path_segments, route_key, route_keys};
use crate::params::{placeholder, lemma_placeholder_injective};

verus! {

/// Some route of `r` continues with the key `k`.
pub open spec fn has_child<V>(r: Map<Seq<Seq<char>>, V>, k: Seq<char>) -> bool {
    exists|rest: Seq<Seq<char>>| #[trigger] r.contains_key(seq![k] + rest)
}

/// The routes of `r` that continue with `k`, with `k` taken off.
pub open spec fn below<V>(r: Map<Seq<Seq<char>>, V>, k: Seq<char>) -> Map<Seq<Seq<char>>, V> {
    Map::new(|rest: Seq<Seq<char>>| r.contains_key(seq![k] + rest), |rest: Seq<Seq<char>>| r[seq![k] + rest])
}

/// The key a request takes from a table for its next segment `seg`: the
/// segment itself when some route continues with it, else the parameter key.
pub open spec fn step_key<V>(r: Map<Seq<Seq<char>>, V>, seg: Seq<char>) -> Seq<char> {
    if has_child(r, seg) { seg } else { seq![':'] }
}

/// Where a request with segments `segs` ends in the table `r`: at each
/// segment it follows the literal key when a route continues with it, and the
/// parameter key otherwise; it never goes back to try another branch.
pub open spec fn route_walk<V>(r: Map<Seq<Seq<char>>, V>, segs: Seq<Seq<char>>) -> Option<V>
    decreases segs.len(),
{
    if segs.len() == 0 {
        if r.contains_key(Seq::empty()) { Some(r[Seq::empty()]) } else { None }
    } else {
        let k = step_key(r, segs[0]);
        if has_child(r, k) { route_walk(below(r, k), segs.drop_first()) } else { None }
    }
}

/// Where a request ends when its first segment is looked up literally only,
/// and the rest walk as in `route_walk`.
pub open spec fn route_walk_literal_first<V>(r: Map<Seq<Seq<char>>, V>, segs: Seq<Seq<char>>) -> Option<V> {
    if segs.len() > 0 && has_child(r, segs[0]) {
        route_walk(below(r, segs[0]), segs.drop_first())
    } else {
        None
    }
}

/// A request fits a route pattern when it has as many segments and each
/// literal segment of the pattern is the request's segment at that place.
pub open spec fn pattern_fits(pattern: Seq<Seq<char>>, segs: Seq<Seq<char>>) -> bool {
    &&& pattern.len() == segs.len()
    &&& forall|i: int| 0 <= i < segs.len() ==> (is_param(#[trigger] pattern[i]) || pattern[i] == segs[i])
}

proof fn lemma_below_insert<V>(r: Map<Seq<Seq<char>>, V>, keys: Seq<Seq<char>>, v: V)
    requires
        keys.len() > 0,
    ensures
        has_child(r.insert(keys, v), keys[0]),
        below(r.insert(keys, v), keys[0]) =~= below(r, keys[0]).insert(keys.drop_first(), v),
{
    let k = keys[0];
    assert(seq![k] + keys.drop_first() =~= keys);
    assert(r.insert(keys, v).contains_key(seq![k] + keys.drop_first()));
    assert forall|rest: Seq<Seq<char>>| (seq![k] + rest == keys) <==> rest == keys.drop_first() by {
        if seq![k] + rest == keys {
            assert(rest =~= (seq![k] + rest).drop_first());
        }
    }
}

/// A request whose segments are exactly the keys of a route just stored
/// reaches that route, whatever else the table holds.
pub proof fn law_stored_route_is_reached<V>(r: Map<Seq<Seq<char>>, V>, keys: Seq<Seq<char>>, v: V)
    ensures
        route_walk(r.insert(keys, v), keys) == Some(v),
    decreases keys.len(),
{
    if keys.len() > 0 {
        lemma_below_insert(r, keys, v);
        law_stored_route_is_reached(below(r, keys[0]), keys.drop_first(), v);
        assert(step_key(r.insert(keys, v), keys[0]) == keys[0]);
    } else {
        assert(keys =~= Seq::<Seq<char>>::empty());
    }
}

proof fn lemma_below_single<V>(keys: Seq<Seq<char>>, v: V, k: Seq<char>)
    ensures
        has_child(Map::empty().insert(keys, v), k) <==> (keys.len() > 0 && keys[0] == k),
        keys.len() > 0 && keys[0] == k ==> below(Map::empty().insert(keys, v), k) =~= Map::empty().insert(
            keys.drop_first(),
            v,
        ),
{
    let m = Map::<Seq<Seq<char>>, V>::empty().insert(keys, v);
    if has_child(m, k) {
        let rest = choose|rest: Seq<Seq<char>>| #[trigger] m.contains_key(seq![k] + rest);
        assert(seq![k] + rest == keys);
        assert((seq![k] + rest)[0] == k);
    }
    if keys.len() > 0 && keys[0] == k {
        lemma_below_insert(Map::<Seq<Seq<char>>, V>::empty(), keys, v);
        assert(below(Map::<Seq<Seq<char>>, V>::empty(), k) =~= Map::<Seq<Seq<char>>, V>::empty());
    }
}

/// With a single route stored, every request that fits its pattern reaches
/// it.
pub proof fn law_single_route_reached<V>(pattern: Seq<Seq<char>>, segs: Seq<Seq<char>>, v: V)
    requires
        pattern_fits(pattern, segs),
    ensures
        route_walk(Map::empty().insert(route_keys(pattern), v), segs) == Some(v),
    decreases segs.len(),
{
    let keys = route_keys(pattern);
    let m = Map::<Seq<Seq<char>>, V>::empty().insert(keys, v);
    if segs.len() > 0 {
        let k = keys[0];
        lemma_below_single(keys, v, segs[0]);
        lemma_below_single(keys, v, seq![':']);
        assert(step_key(m, segs[0]) == k) by {
            if !is_param(pattern[0]) {
                assert(pattern[0] == segs[0]);
            }
        }
        assert(route_keys(pattern.drop_first()) =~= keys.drop_first());
        assert(pattern_fits(pattern.drop_first(), segs.drop_first())) by {
            assert forall|i: int| 0 <= i < segs.drop_first().len() implies (is_param(#[trigger] pattern.drop_first()[i])
                || pattern.drop_first()[i] == segs.drop_first()[i]) by {
                assert(is_param(pattern[i + 1]) || pattern[i + 1] == segs[i + 1]);
            }
        }
        law_single_route_reached(pattern.drop_first(), segs.drop_first(), v);
    } else {
        assert(keys =~= Seq::<Seq<char>>::empty());
    }
}

proof fn lemma_literal_first_single<V>(pattern: Seq<Seq<char>>, segs: Seq<Seq<char>>, v: V)
    requires
        pattern_fits(pattern, segs),
        segs.len() > 0,
    ensures
        route_walk_literal_first(Map::empty().insert(route_keys(pattern), v), segs) is None
            || route_walk_literal_first(Map::empty().insert(route_keys(pattern), v), segs) == Some(v),
        !is_param(pattern[0]) ==> route_walk_literal_first(Map::empty().insert(route_keys(pattern), v), segs)
            == Some(v),
{
    let keys = route_keys(pattern);
    lemma_below_single(keys, v, segs[0]);
    if keys[0] == segs[0] {
        assert(route_keys(pattern.drop_first()) =~= keys.drop_first());
        assert(pattern_fits(pattern.drop_first(), segs.drop_first())) by {
            assert forall|i: int| 0 <= i < segs.drop_first().len() implies (is_param(#[trigger] pattern.drop_first()[i])
                || pattern.drop_first()[i] == segs.drop_first()[i]) by {
                assert(is_param(pattern[i + 1]) || pattern[i + 1] == segs[i + 1]);
            }
        }
        law_single_route_reached(pattern.drop_first(), segs.drop_first(), v);
    } else {
        if !is_param(pattern[0]) {
            assert(pattern[0] == segs[0]);
        }
    }
}

/// In a tree holding a single route, every request that fits the route's
/// pattern reaches it, provided the pattern's first or last segment is
/// literal: one of the two lookups then starts from a literal key.
pub proof fn law_single_route_tree<V>(pattern: Seq<Seq<char>>, segs: Seq<Seq<char>>, v: V)
    requires
        pattern_fits(pattern, segs),
        segs.len() > 0,
        !is_param(pattern[0]) || !is_param(pattern.last()),
    ensures
        ({
            let fwd = route_walk_literal_first(Map::empty().insert(route_keys(pattern), v), segs);
            let bwd = route_walk_literal_first(Map::empty().insert(route_keys(pattern.reverse()), v), segs.reverse());
            (if fwd is Some { fwd } else { bwd }) == Some(v)
        }),
{
    lemma_literal_first_single(pattern, segs, v);
    assert(pattern_fits(pattern.reverse(), segs.reverse())) by {
        assert forall|i: int| 0 <= i < segs.reverse().len() implies (is_param(#[trigger] pattern.reverse()[i])
            || pattern.reverse()[i] == segs.reverse()[i]) by {
            let j = segs.len() - 1 - i;
            assert(is_param(pattern[j]) || pattern[j] == segs[j]);
        }
    }
    lemma_literal_first_single(pattern.reverse(), segs.reverse(), v);
    assert(pattern.reverse()[0] == pattern.last());
}

/// A request written exactly as a stored route without parameters reaches
/// that route, whatever else the table holds.
pub proof fn law_literal_route_reached<V>(r: Map<Seq<Seq<char>>, V>, segs: Seq<Seq<char>>, v: V)
    requires
        forall|i: int| 0 <= i < segs.len() ==> !is_param(#[trigger] segs[i]),
    ensures
        route_walk(r.insert(route_keys(segs), v), segs) == Some(v),
{
    assert(route_keys(segs) =~= segs);
    law_stored_route_is_reached(r, segs, v);
}

/// In a tree, a request written exactly as a stored route without
/// parameters reaches that route, whatever else the tree holds: the lookup
/// from the front finds it.
pub proof fn law_tree_literal_route_reached<V>(
    fwd: Map<Seq<Seq<char>>, V>,
    bwd: Map<Seq<Seq<char>>, V>,
    segs: Seq<Seq<char>>,
    v: V,
)
    requires
        segs.len() > 0,
        forall|i: int| 0 <= i < segs.len() ==> !is_param(#[trigger] segs[i]),
    ensures
        ({
            let f = route_walk_literal_first(fwd.insert(route_keys(segs), v), segs);
            let b = route_walk_literal_first(bwd.insert(route_keys(segs.reverse()), v), segs.reverse());
            (if f is Some { f } else { b }) == Some(v)
        }),
{
    assert(route_keys(segs) =~= segs);
    lemma_below_insert(fwd, segs, v);
    law_stored_route_is_reached(below(fwd, segs[0]), segs.drop_first(), v);
}

/// The keys a request with segments `segs` takes through `r` (see `route_walk`).
pub open spec fn walk_keys<V>(r: Map<Seq<Seq<char>>, V>, segs: Seq<Seq<char>>) -> Seq<Seq<char>>
    decreases segs.len(),
{
    if segs.len() == 0 {
        Seq::empty()
    } else {
        let k = step_key(r, segs[0]);
        if has_child(r, k) { seq![k] + walk_keys(below(r, k), segs.drop_first()) } else { Seq::empty() }
    }
}

/// The place a segment's placeholder is named after: for a walk over a
/// path's segments, the segment's place counted from the end of the path
/// (the last segment is 1); for a walk over the segments in reverse, its
/// place counted from the start of the reversed walk, which is the same
/// place of the path.
pub open spec fn mark_label(depth: nat, total: nat, backward: bool) -> nat {
    if backward { depth + 1 } else { (total - depth) as nat }
}

/// What a walk of `segs` through `r` records in `acc`: each segment taken
/// under the parameter key `:` is recorded under the placeholder named after
/// its place, `depth` being the index of `segs[0]` in a path of `total`
/// segments.
pub open spec fn walk_capture<V>(
    r: Map<Seq<Seq<char>>, V>,
    segs: Seq<Seq<char>>,
    depth: nat,
    total: nat,
    backward: bool,
    acc: Map<Seq<char>, Seq<char>>,
) -> Map<Seq<char>, Seq<char>>
    decreases segs.len(),
{
    if segs.len() == 0 {
        acc
    } else {
        let k = step_key(r, segs[0]);
        if has_child(r, k) {
            let acc2 = if k == seq![':'] {
                acc.insert(placeholder(mark_label(depth, total, backward)), segs[0])
            } else {
                acc
            };
            walk_capture(below(r, k), segs.drop_first(), depth + 1, total, backward, acc2)
        } else {
            acc
        }
    }
}

/// What a walk whose first segment is looked up literally records, starting
/// from nothing.
pub open spec fn walk_capture_literal_first<V>(
    r: Map<Seq<Seq<char>>, V>,
    segs: Seq<Seq<char>>,
    backward: bool,
) -> Map<Seq<char>, Seq<char>> {
    if segs.len() > 0 && has_child(r, segs[0]) {
        let acc = if segs[0] == seq![':'] {
            Map::empty().insert(placeholder(mark_label(0, segs.len(), backward)), segs[0])
        } else {
            Map::empty()
        };
        walk_capture(below(r, segs[0]), segs.drop_first(), 1, segs.len(), backward, acc)
    } else {
        Map::empty()
    }
}

/// The keys a walk whose first segment is looked up literally takes.
pub open spec fn walk_keys_literal_first<V>(r: Map<Seq<Seq<char>>, V>, segs: Seq<Seq<char>>) -> Seq<Seq<char>> {
    seq![segs[0]] + walk_keys(below(r, segs[0]), segs.drop_first())
}

/// A walk that reaches a route takes one key per segment, each the segment
/// itself or the parameter key, and the route is the one stored under them.
pub proof fn lemma_walk_keys<V>(r: Map<Seq<Seq<char>>, V>, segs: Seq<Seq<char>>)
    requires
        route_walk(r, segs) is Some,
    ensures
        walk_keys(r, segs).len() == segs.len(),
        r.contains_key(walk_keys(r, segs)),
        route_walk(r, segs) == Some(r[walk_keys(r, segs)]),
        forall|i: int| 0 <= i < segs.len() ==> #[trigger] walk_keys(r, segs)[i] == segs[i]
            || walk_keys(r, segs)[i] == seq![':'],
    decreases segs.len(),
{
    if segs.len() == 0 {
        assert(walk_keys(r, segs) =~= Seq::<Seq<char>>::empty());
    } else {
        let k = step_key(r, segs[0]);
        let sub = below(r, k);
        lemma_walk_keys(sub, segs.drop_first());
        let ks = walk_keys(r, segs);
        assert(ks =~= seq![k] + walk_keys(sub, segs.drop_first()));
        assert forall|i: int| 0 <= i < segs.len() implies #[trigger] ks[i] == segs[i] || ks[i] == seq![':'] by {
            if i > 0 {
                assert(ks[i] == walk_keys(sub, segs.drop_first())[i - 1]);
                assert(segs[i] == segs.drop_first()[i - 1]);
            }
        }
    }
}

/// The placeholder of the segment at `depth` of a walk.
pub open spec fn mark(depth: nat, total: nat, backward: bool) -> Seq<char> {
    placeholder(mark_label(depth, total, backward))
}

/// Different places of a walk have different placeholders.
pub proof fn lemma_mark_distinct(a: nat, b: nat, total: nat, backward: bool)
    requires
        a != b,
        a < total,
        b < total,
    ensures
        mark(a, total, backward) != mark(b, total, backward),
{
    lemma_placeholder_injective(mark_label(a, total, backward), mark_label(b, total, backward));
}

/// What a walk that reaches a route records: the segment at each place where
/// it took the parameter key, under that place's placeholder; every other
/// name keeps what `acc` held.
pub proof fn lemma_walk_capture<V>(
    r: Map<Seq<Seq<char>>, V>,
    segs: Seq<Seq<char>>,
    depth: nat,
    total: nat,
    backward: bool,
    acc: Map<Seq<char>, Seq<char>>,
)
    requires
        route_walk(r, segs) is Some,
        depth + segs.len() <= total,
    ensures
        forall|i: int|
            #![trigger walk_keys(r, segs)[i]]
            0 <= i < segs.len() && walk_keys(r, segs)[i] == seq![':'] ==> walk_capture(r, segs, depth, total, backward, acc).contains_key(mark((depth + i) as nat, total, backward))
                && walk_capture(r, segs, depth, total, backward, acc)[mark((depth + i) as nat, total, backward)] == segs[i],
        forall|c: Seq<char>|
            (forall|i: int| 0 <= i < segs.len() && walk_keys(r, segs)[i] == seq![':'] ==> c != #[trigger] mark((depth + i) as nat, total, backward))
                ==> (#[trigger] walk_capture(r, segs, depth, total, backward, acc).contains_key(c) == acc.contains_key(c)
                && (acc.contains_key(c) ==> walk_capture(r, segs, depth, total, backward, acc)[c] == acc[c])),
    decreases segs.len(),
{
    if segs.len() > 0 {
        let k = step_key(r, segs[0]);
        let sub = below(r, k);
        let rest = segs.drop_first();
        let m0 = mark(depth, total, backward);
        let acc2 = if k == seq![':'] { acc.insert(m0, segs[0]) } else { acc };
        assert(has_child(r, k));
        lemma_walk_keys(sub, rest);
        lemma_walk_capture(sub, rest, depth + 1, total, backward, acc2);
        let ks = walk_keys(r, segs);
        let cap = walk_capture(r, segs, depth, total, backward, acc);
        assert(cap == walk_capture(sub, rest, depth + 1, total, backward, acc2));
        assert(ks =~= seq![k] + walk_keys(sub, rest));
        let sc = walk_capture(sub, rest, depth + 1, total, backward, acc2);
        assert(mark((depth + 0) as nat, total, backward) == m0);
        assert forall|i: int|
            #![trigger ks[i]]
            0 <= i < segs.len() && ks[i] == seq![':'] implies cap.contains_key(mark((depth + i) as nat, total, backward))
                && cap[mark((depth + i) as nat, total, backward)] == segs[i] by {
            if i == 0 {
                assert(k == seq![':']);
                assert forall|j: int| 0 <= j < rest.len() && walk_keys(sub, rest)[j] == seq![':'] implies m0 != #[trigger] mark(
                    (depth + 1 + j) as nat,
                    total,
                    backward,
                ) by {
                    lemma_mark_distinct(depth, (depth + 1 + j) as nat, total, backward);
                }
                assert(sc.contains_key(m0) == acc2.contains_key(m0));
            } else {
                let j = i - 1;
                assert(walk_keys(sub, rest)[j] == ks[i]);
                assert(rest[j] == segs[i]);
                assert((depth + 1 + j) as nat == (depth + i) as nat);
                assert(walk_keys(sub, rest)[j] == seq![':']);
                assert(sc.contains_key(mark((depth + 1 + j) as nat, total, backward)));
            }
        }
        assert forall|c: Seq<char>|
            (forall|i: int| 0 <= i < segs.len() && ks[i] == seq![':'] ==> c != #[trigger] mark((depth + i) as nat, total, backward))
                implies (#[trigger] cap.contains_key(c) == acc.contains_key(c) && (acc.contains_key(c) ==> cap[c] == acc[c])) by {
            assert forall|j: int| 0 <= j < rest.len() && walk_keys(sub, rest)[j] == seq![':'] implies c != #[trigger] mark(
                (depth + 1 + j) as nat,
                total,
                backward,
            ) by {
                assert(ks[j + 1] == walk_keys(sub, rest)[j]);
                assert((depth + (j + 1)) as nat == (depth + 1 + j) as nat);
                assert(c != mark((depth + (j + 1)) as nat, total, backward));
            }
            assert(sc.contains_key(c) == acc2.contains_key(c));
            if k == seq![':'] {
                assert(ks[0] == seq![':']);
                assert(c != mark((depth + 0) as nat, total, backward));
            }
        }
    }
}

/// What a walk whose first segment is looked up literally reaches and
/// records: the route under its keys, one key per segment (the first one the
/// segment itself), and the segment at each place where it took the
/// parameter key, under that place's placeholder, and nothing else.
pub proof fn lemma_literal_first_result<V>(r: Map<Seq<Seq<char>>, V>, segs: Seq<Seq<char>>, backward: bool)
    requires
        route_walk_literal_first(r, segs) is Some,
    ensures
        ({
            let keys = walk_keys_literal_first(r, segs);
            let cap = walk_capture_literal_first(r, segs, backward);
            &&& keys.len() == segs.len()
            &&& keys[0] == segs[0]
            &&& r.contains_key(keys)
            &&& route_walk_literal_first(r, segs) == Some(r[keys])
            &&& forall|i: int| 0 <= i < segs.len() ==> #[trigger] keys[i] == segs[i] || keys[i] == seq![':']
            &&& forall|i: int|
                #![trigger keys[i]]
                0 <= i < segs.len() && keys[i] == seq![':'] ==> cap.contains_key(mark(i as nat, segs.len(), backward))
                    && cap[mark(i as nat, segs.len(), backward)] == segs[i]
            &&& forall|c: Seq<char>|
                (forall|i: int| 0 <= i < segs.len() && keys[i] == seq![':'] ==> c != #[trigger] mark(i as nat, segs.len(), backward))
                    ==> !(#[trigger] cap.contains_key(c))
        }),
{
    let n = segs.len();
    let k = segs[0];
    let sub = below(r, k);
    let rest = segs.drop_first();
    let keys = walk_keys_literal_first(r, segs);
    let cap = walk_capture_literal_first(r, segs, backward);
    let m0 = mark(0, n, backward);
    let acc = if k == seq![':'] { Map::<Seq<char>, Seq<char>>::empty().insert(m0, k) } else { Map::empty() };
    lemma_walk_keys(sub, rest);
    lemma_walk_capture(sub, rest, 1, n, backward, acc);
    assert(keys =~= seq![k] + walk_keys(sub, rest));
    let sk = walk_keys(sub, rest);
    assert(seq![k] + sk == keys);
    assert(sub.contains_key(sk));
    assert forall|i: int| 0 <= i < n implies #[trigger] keys[i] == segs[i] || keys[i] == seq![':'] by {
        if i > 0 {
            assert(keys[i] == sk[i - 1]);
            assert(segs[i] == rest[i - 1]);
        }
    }
    assert forall|i: int|
        #![trigger keys[i]]
        0 <= i < n && keys[i] == seq![':'] implies cap.contains_key(mark(i as nat, n, backward))
            && cap[mark(i as nat, n, backward)] == segs[i] by {
        if i == 0 {
            assert forall|j: int| 0 <= j < rest.len() && sk[j] == seq![':'] implies m0 != #[trigger] mark(
                (1 + j) as nat,
                n,
                backward,
            ) by {
                lemma_mark_distinct(0, (1 + j) as nat, n, backward);
            }
            assert(mark(0, n, backward) == m0);
        } else {
            let j = i - 1;
            assert(sk[j] == keys[i]);
            assert(rest[j] == segs[i]);
            assert(sk[j] == seq![':']);
            assert((1 + j) as nat == i as nat);
        }
    }
    assert forall|c: Seq<char>|
        (forall|i: int| 0 <= i < n && keys[i] == seq![':'] ==> c != #[trigger] mark(i as nat, n, backward))
            implies !(#[trigger] cap.contains_key(c)) by {
        assert forall|j: int| 0 <= j < rest.len() && sk[j] == seq![':'] implies c != #[trigger] mark((1 + j) as nat, n, backward) by {
            assert(keys[j + 1] == sk[j]);
            assert(c != mark((j + 1) as nat, n, backward));
            assert((j + 1) as nat == (1 + j) as nat);
        }
        if k == seq![':'] {
            assert(keys[0] == seq![':']);
            assert(c != mark(0, n, backward));
        }
    }
}

/// Every route of `r` is stored under the keys of its own segments, read
/// from the back when `backward`.
pub open spec fn routes_keyed<H>(r: Map<Seq<Seq<char>>, (Seq<char>, H)>, backward: bool) -> bool {
    forall|keys: Seq<Seq<char>>| #[trigger] r.contains_key(keys) ==> keys == (if backward {
        route_keys(path_segments(r[keys].0).reverse())
    } else {
        route_keys(path_segments(r[keys].0))
    })
}

/// A walk that reaches a route takes keys that fit the request: as many as
/// its segments, each the segment itself or the parameter key.
pub proof fn law_walk_sound<V>(r: Map<Seq<Seq<char>>, V>, segs: Seq<Seq<char>>)
    requires
        route_walk(r, segs) is Some,
    ensures
        r.contains_key(walk_keys(r, segs)),
        route_walk(r, segs) == Some(r[walk_keys(r, segs)]),
        walk_keys(r, segs).len() == segs.len(),
        forall|i: int| 0 <= i < segs.len() ==> #[trigger] walk_keys(r, segs)[i] == segs[i]
            || walk_keys(r, segs)[i] == seq![':'],
{
    lemma_walk_keys(r, segs);
}

/// A segment's key is the parameter key exactly when it names a parameter.
pub proof fn lemma_param_key_of(x: Seq<char>)
    ensures
        (route_key(x) == seq![':']) == is_param(x),
{
    if route_key(x) == seq![':'] && !is_param(x) {
        assert(x == seq![':']);
        assert(x[0] == ':');
    }
}

/// With a single route stored, a request reaches it exactly when it fits
/// the route's pattern.
pub proof fn law_single_route_exactly<V>(pattern: Seq<Seq<char>>, segs: Seq<Seq<char>>, v: V)
    ensures
        route_walk(Map::empty().insert(route_keys(pattern), v), segs) is Some <==> pattern_fits(pattern, segs),
{
    let m = Map::<Seq<Seq<char>>, V>::empty().insert(route_keys(pattern), v);
    if pattern_fits(pattern, segs) {
        law_single_route_reached(pattern, segs, v);
    }
    if route_walk(m, segs) is Some {
        lemma_walk_keys(m, segs);
        let k = walk_keys(m, segs);
        assert(k == route_keys(pattern));
        assert forall|i: int| 0 <= i < segs.len() implies (is_param(#[trigger] pattern[i]) || pattern[i] == segs[i]) by {
            assert(k[i] == route_key(pattern[i]));
            lemma_param_key_of(pattern[i]);
        }
    }
}

/// The table built by storing the routes `ins` one after another, each
/// pattern under its keys, a later route replacing an earlier one stored
/// under the same keys (what `HashRadixNode::new` followed by
/// `insert_path` calls builds).
pub open spec fn inserts_view<V>(ins: Seq<(Seq<Seq<char>>, V)>) -> Map<Seq<Seq<char>>, V>
    decreases ins.len(),
{
    if ins.len() == 0 {
        Map::empty()
    } else {
        inserts_view(ins.drop_last()).insert(route_keys(ins.last().0), ins.last().1)
    }
}

proof fn lemma_inserts_lookup<V>(ins: Seq<(Seq<Seq<char>>, V)>, k: Seq<Seq<char>>)
    requires
        inserts_view(ins).contains_key(k),
    ensures
        exists|i: int|
            0 <= i < ins.len() && route_keys(#[trigger] ins[i].0) == k && inserts_view(ins)[k] == ins[i].1
                && forall|j: int| i < j < ins.len() ==> route_keys(#[trigger] ins[j].0) != k,
    decreases ins.len(),
{
    let n = ins.len() - 1;
    let prev = ins.drop_last();
    if route_keys(ins[n].0) == k {
        assert(route_keys(ins[n].0) == k && inserts_view(ins)[k] == ins[n].1);
    } else {
        lemma_inserts_lookup(prev, k);
        let i = choose|i: int|
            0 <= i < prev.len() && route_keys(#[trigger] prev[i].0) == k && inserts_view(prev)[k] == prev[i].1
                && forall|j: int| i < j < prev.len() ==> route_keys(#[trigger] prev[j].0) != k;
        assert(ins[i] == prev[i]);
        assert forall|j: int| i < j < ins.len() implies route_keys(#[trigger] ins[j].0) != k by {
            if j < n {
                assert(ins[j] == prev[j]);
            }
        }
    }
}

/// A request that reaches a route of a table built by storing routes one
/// after another reaches one of those routes whose pattern it fits, and
/// gets what the last route stored under that route's keys brought.
pub proof fn law_inserted_routes_sound<V>(ins: Seq<(Seq<Seq<char>>, V)>, segs: Seq<Seq<char>>)
    requires
        route_walk(inserts_view(ins), segs) is Some,
    ensures
        exists|i: int|
            0 <= i < ins.len() && pattern_fits(#[trigger] ins[i].0, segs) && route_walk(inserts_view(ins), segs)
                == Some(ins[i].1) && forall|j: int|
                i < j < ins.len() ==> route_keys(#[trigger] ins[j].0) != route_keys(ins[i].0),
{
    let m = inserts_view(ins);
    lemma_walk_keys(m, segs);
    let k = walk_keys(m, segs);
    lemma_inserts_lookup(ins, k);
    let i = choose|i: int|
        0 <= i < ins.len() && route_keys(#[trigger] ins[i].0) == k && inserts_view(ins)[k] == ins[i].1
            && forall|j: int| i < j < ins.len() ==> route_keys(#[trigger] ins[j].0) != k;
    let p = ins[i].0;
    assert(route_keys(p).len() == p.len());
    assert forall|j: int| 0 <= j < segs.len() implies (is_param(#[trigger] p[j]) || p[j] == segs[j]) by {
        assert(k[j] == route_key(p[j]));
        lemma_param_key_of(p[j]);
    }
    assert(pattern_fits(p, segs));
}

/// A request with no segments left ends where it is: at the route stored
/// there, if one is.
pub proof fn law_walk_ends_here<V>(r: Map<Seq<Seq<char>>, V>, segs: Seq<Seq<char>>)
    requires
        segs.len() == 0,
    ensures
        route_walk(r, segs) == (if r.contains_key(Seq::empty()) { Some(r[Seq::empty()]) } else { None }),
{
}

/// When some route continues with the request's next segment itself, the
/// walk follows that segment.
pub proof fn law_walk_takes_literal<V>(r: Map<Seq<Seq<char>>, V>, segs: Seq<Seq<char>>)
    requires
        segs.len() > 0,
        has_child(r, segs[0]),
    ensures
        route_walk(r, segs) == route_walk(below(r, segs[0]), segs.drop_first()),
{
}

/// When no route continues with the request's next segment but some route
/// continues with a parameter, the walk goes on under the parameter key,
/// whatever else is stored at this point (a route ending here, or any
/// number of other literal keys).
pub proof fn law_walk_falls_back_to_parameter<V>(r: Map<Seq<Seq<char>>, V>, segs: Seq<Seq<char>>)
    requires
        segs.len() > 0,
        !has_child(r, segs[0]),
        has_child(r, seq![':']),
    ensures
        route_walk(r, segs) == route_walk(below(r, seq![':']), segs.drop_first()),
{
}

/// When no route continues with the request's next segment nor with a
/// parameter, the request reaches no route.
pub proof fn law_walk_dead_end<V>(r: Map<Seq<Seq<char>>, V>, segs: Seq<Seq<char>>)
    requires
        segs.len() > 0,
        !has_child(r, segs[0]),
        !has_child(r, seq![':']),
    ensures
        route_walk(r, segs) is None,
{
}

proof fn lemma_has_child_of<V>(r: Map<Seq<Seq<char>>, V>, k: Seq<char>, rest: Seq<Seq<char>>)
    requires
        r.contains_key(seq![k] + rest),
    ensures
        has_child(r, k),
{
}

proof fn lemma_no_child_unless<V>(r: Map<Seq<Seq<char>>, V>, k: Seq<char>)
    requires
        forall|keys: Seq<Seq<char>>| #[trigger] r.contains_key(keys) ==> keys.len() == 0 || keys[0] != k,
    ensures
        !has_child(r, k),
{
    if has_child(r, k) {
        let rest = choose|rest: Seq<Seq<char>>| #[trigger] r.contains_key(seq![k] + rest);
        assert((seq![k] + rest)[0] == k);
    }
}

/// A parameter route beside literal routes under the same first segment:
/// a request whose second segment is none of the literal routes' reaches
/// the parameter route, and one whose second segment is a literal route's
/// reaches that one; a route ending at the first segment takes nothing from
/// the parameter route.
pub proof fn law_parameter_beside_literals<V>(
    first: Seq<char>,
    lits: Seq<Seq<char>>,
    vals: Seq<V>,
    end: Option<V>,
    pv: V,
    x: Seq<char>,
)
    requires
        first != seq![':'],
        lits.len() == vals.len(),
        forall|i: int| 0 <= i < lits.len() ==> #[trigger] lits[i] != seq![':'],
        forall|i: int, j: int| 0 <= i < j < lits.len() ==> lits[i] != lits[j],
    ensures
        ({
            let base = match end {
                Some(v) => Map::empty().insert(seq![first], v),
                None => Map::empty(),
            };
            let lit_routes = Map::new(
                |keys: Seq<Seq<char>>| exists|i: int| 0 <= i < lits.len() && keys == seq![first, #[trigger] lits[i]],
                |keys: Seq<Seq<char>>| vals[choose|i: int| 0 <= i < lits.len() && keys == seq![first, #[trigger] lits[i]]],
            );
            let r = base.union_prefer_right(lit_routes).insert(seq![first, seq![':']], pv);
            &&& (forall|i: int| 0 <= i < lits.len() ==> x != #[trigger] lits[i]) ==> route_walk(r, seq![first, x]) == Some(pv)
            &&& forall|i: int| 0 <= i < lits.len() && x == #[trigger] lits[i] ==> route_walk(r, seq![first, x]) == Some(vals[i])
        }),
{
    let base = match end {
        Some(v) => Map::empty().insert(seq![first], v),
        None => Map::empty(),
    };
    let lit_routes = Map::new(
        |keys: Seq<Seq<char>>| exists|i: int| 0 <= i < lits.len() && keys == seq![first, #[trigger] lits[i]],
        |keys: Seq<Seq<char>>| vals[choose|i: int| 0 <= i < lits.len() && keys == seq![first, #[trigger] lits[i]]],
    );
    let r = base.union_prefer_right(lit_routes).insert(seq![first, seq![':']], pv);
    let segs = seq![first, x];
    let pk = seq![':'];
    assert(segs[0] == first);
    assert(seq![first] + seq![pk] =~= seq![first, pk]);
    assert(r.contains_key(seq![first, pk]));
    lemma_has_child_of(r, first, seq![pk]);
    assert(route_walk(r, segs) == route_walk(below(r, first), segs.drop_first()));
    let b = below(r, first);
    assert(segs.drop_first() =~= seq![x]);
    assert(b.contains_key(seq![pk]));
    assert(seq![pk] =~= seq![pk] + Seq::<Seq<char>>::empty());
    lemma_has_child_of(b, pk, Seq::empty());
    assert(b[seq![pk]] == pv);
    // what lies below `first`: a route ending there, the literal routes and the parameter route
    assert forall|keys: Seq<Seq<char>>| #[trigger] b.contains_key(keys) implies keys.len() == 0 || keys == seq![pk]
        || exists|i: int| 0 <= i < lits.len() && keys == seq![#[trigger] lits[i]] by {
        let full = seq![first] + keys;
        if full == seq![first, pk] {
            assert(keys =~= full.drop_first());
        } else if lit_routes.contains_key(full) {
            let i = choose|i: int| 0 <= i < lits.len() && full == seq![first, #[trigger] lits[i]];
            assert(keys =~= full.drop_first());
            assert(keys == seq![lits[i]]);
        } else {
            assert(base.contains_key(full));
            assert(full.len() == 1);
        }
    }
    if forall|i: int| 0 <= i < lits.len() ==> x != #[trigger] lits[i] {
        if x == pk {
            assert(route_walk(b, seq![x]) == route_walk(below(b, pk), Seq::empty()));
        } else {
            assert forall|keys: Seq<Seq<char>>| #[trigger] b.contains_key(keys) implies keys.len() == 0 || keys[0] != x by {
                if keys.len() > 0 && keys != seq![pk] {
                    let i = choose|i: int| 0 <= i < lits.len() && keys == seq![#[trigger] lits[i]];
                    assert(keys[0] == lits[i]);
                }
            }
            lemma_no_child_unless(b, x);
            assert(route_walk(b, seq![x]) == route_walk(below(b, pk), seq![x].drop_first()));
            assert(seq![x].drop_first() =~= Seq::<Seq<char>>::empty());
        }
        assert(below(b, pk).contains_key(Seq::empty()));
        assert(below(b, pk)[Seq::empty()] == pv);
    }
    assert forall|i: int| 0 <= i < lits.len() && x == #[trigger] lits[i] implies route_walk(r, seq![first, x]) == Some(vals[i]) by {
        let k = seq![first, lits[i]];
        assert(lit_routes.contains_key(k));
        assert(k != seq![first, pk]) by {
            assert(k[1] == lits[i]);
        }
        let ci = choose|j: int| 0 <= j < lits.len() && k == seq![first, #[trigger] lits[j]];
        assert(k[1] == lits[ci]);
        assert(ci == i);
        assert(r[k] == vals[i]);
        assert(b.contains_key(seq![x])) by {
            assert(seq![first] + seq![x] =~= k);
        }
        assert(seq![x] =~= seq![x] + Seq::<Seq<char>>::empty());
        lemma_has_child_of(b, x, Seq::empty());
        assert(route_walk(b, seq![x]) == route_walk(below(b, x), seq![x].drop_first()));
        assert(seq![x].drop_first() =~= Seq::<Seq<char>>::empty());
        assert(below(b, x).contains_key(Seq::empty()));
        assert(seq![x] + Seq::<Seq<char>>::empty() =~= seq![x]);
        assert(seq![first] + seq![x] =~= k);
        assert(below(b, x)[Seq::empty()] == vals[i]);
    }
}

} // verus!
