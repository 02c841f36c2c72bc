//! A radix tree of routes, one node per path segment.
use vstd::prelude::*;
use crate::params::{PathParams, bind_rule_params, bind_prefix, bound_params, placeholder, placeholder_name};
use crate::path::{is_param, path_segments, route_key, route_keys, route_key_of, split_path, strings_view};
use crate::routes::{below, has_child, route_walk, route_walk_literal_first, walk_capture, walk_capture_literal_first, walk_keys_literal_first, routes_keyed, lemma_literal_first_result, mark, lemma_mark_distinct, lemma_param_key_of, pattern_fits};
use crate::mstruct::{captures, captures_prefix};

verus! {

/// A node of the route tree. A child is stored under the key of its
/// segment, in a list of `(key, child)` pairs with distinct keys; a node
/// where a route ends holds the route as written and its handler.
pub struct HashRadixNode<H> {
    childern: Vec<(String, HashRadixNode<H>)>,
    param_name: Option<String>,
    function: Option<H>,
}

impl<H> HashRadixNode<H> {
    /// The route that ends at this node, if one does.
    pub closed spec fn terminal(self) -> Option<(Seq<char>, H)> {
        match (self.param_name, self.function) {
            (Some(p), Some(f)) => Some((p@, f)),
            _ => None,
        }
    }

    /// The position of the child stored under `k`.
    pub closed spec fn child_index(self, k: Seq<char>) -> Option<int> {
        if exists|i: int| 0 <= i < self.childern@.len() && #[trigger] self.childern@[i].0@ == k {
            Some(choose|i: int| 0 <= i < self.childern@.len() && #[trigger] self.childern@[i].0@ == k)
        } else {
            None
        }
    }

    /// The route reached by following the keys `keys` from this node.
    pub closed spec fn lookup(self, keys: Seq<Seq<char>>) -> Option<(Seq<char>, H)>
        decreases keys.len(),
    {
        if keys.len() == 0 {
            self.terminal()
        } else {
            match self.child_index(keys[0]) {
                Some(i) => self.childern@[i].1.lookup(keys.drop_first()),
                None => None,
            }
        }
    }

    /// Some route passes through this node.
    pub closed spec fn nonempty(self) -> bool {
        exists|keys: Seq<Seq<char>>| #[trigger] self.lookup(keys) is Some
    }

    /// No two children share a key.
    pub closed spec fn keys_unique(self) -> bool {
        forall|i: int, j: int|
            0 <= i < j < self.childern@.len() ==> #[trigger] self.childern@[i].0@ != #[trigger] self.childern@[j].0@
    }

    /// The node's invariant: a route's rule and handler are set together,
    /// children have distinct keys, and every child carries some route.
    pub closed spec fn well_formed(self) -> bool
        decreases self,
    {
        &&& (self.param_name is Some <==> self.function is Some)
        &&& self.keys_unique()
        &&& forall|i: int|
            #![trigger self.childern@[i]]
            0 <= i < self.childern@.len() ==> self.childern@[i].1.well_formed() && self.childern@[i].1.nonempty()
    }
}

impl<H> View for HashRadixNode<H> {
    type V = Map<Seq<Seq<char>>, (Seq<char>, H)>;

    /// The routes of the subtree, by the keys of their segments.
    closed spec fn view(&self) -> Map<Seq<Seq<char>>, (Seq<char>, H)> {
        Map::new(|keys: Seq<Seq<char>>| self.lookup(keys) is Some, |keys: Seq<Seq<char>>| self.lookup(keys)->0)
    }
}

impl<H> HashRadixNode<H> {
    proof fn lemma_view_lookup(self, keys: Seq<Seq<char>>)
        ensures
            self@.contains_key(keys) == self.lookup(keys) is Some,
            self.lookup(keys) matches Some(v) ==> self@[keys] == v,
    {
    }

    /// In a well-formed node, a child under `k` exists exactly when a route
    /// continues with `k`, and that child holds the routes below `k`.
    proof fn lemma_child(self, k: Seq<char>)
        requires
            self.well_formed(),
        ensures
            self.child_index(k) is Some <==> has_child(self@, k),
            self.child_index(k) matches Some(i) ==> (0 <= i < self.childern@.len() && self.childern@[i].0@ == k
                && below(self@, k) =~= self.childern@[i].1@),
    {
        match self.child_index(k) {
            Some(i) => {
                let c = self.childern@[i].1;
                assert(0 <= i < self.childern@.len());
                assert(self.childern@[i].1.well_formed());
                assert(c.nonempty());
                let w = choose|keys: Seq<Seq<char>>| #[trigger] c.lookup(keys) is Some;
                assert((seq![k] + w).drop_first() =~= w);
                assert(self.lookup(seq![k] + w) is Some);
                assert(self@.contains_key(seq![k] + w));
                assert forall|rest: Seq<Seq<char>>| #[trigger] below(self@, k).contains_key(rest) == c@.contains_key(rest)
                    && (c@.contains_key(rest) ==> below(self@, k)[rest] == c@[rest]) by {
                    assert((seq![k] + rest).drop_first() =~= rest);
                    assert((seq![k] + rest)[0] == k);
                }
            },
            None => {
                if has_child(self@, k) {
                    let rest = choose|rest: Seq<Seq<char>>| #[trigger] self@.contains_key(seq![k] + rest);
                    assert((seq![k] + rest)[0] == k);
                    assert(self.lookup(seq![k] + rest) is Some);
                }
            },
        }
    }

    /// A node with no routes.
    pub fn new() -> (n: Self)
        ensures
            n.well_formed(),
            n@ == Map::<Seq<Seq<char>>, (Seq<char>, H)>::empty(),
    {
        let n = HashRadixNode { childern: Vec::new(), param_name: None, function: None };
        assert forall|keys: Seq<Seq<char>>| !(#[trigger] n.lookup(keys) is Some) by {}
        assert(n@ =~= Map::<Seq<Seq<char>>, (Seq<char>, H)>::empty());
        n
    }

    /// The position of the child stored under `k`.
    fn find_child(&self, k: &String) -> (r: Option<usize>)
        requires
            self.well_formed(),
        ensures
            match r {
                Some(i) => self.child_index(k@) == Some(i as int) && i < self.childern@.len(),
                None => self.child_index(k@) is None,
            },
    {
        let mut i: usize = 0;
        while i < self.childern.len()
            invariant
                self.well_formed(),
                i <= self.childern@.len(),
                forall|j: int| 0 <= j < i ==> #[trigger] self.childern@[j].0@ != k@,
            decreases self.childern@.len() - i,
        {
            if self.childern[i].0 == *k {
                proof {
                    let c = choose|j: int| 0 <= j < self.childern@.len() && #[trigger] self.childern@[j].0@ == k@;
                    assert(self.childern@[c].0@ == k@);
                    if c > i as int {
                        assert(self.childern@[i as int].0@ != self.childern@[c].0@);
                    }
                }
                return Some(i);
            }
            i = i + 1;
        }
        None
    }
}

impl<H> HashRadixNode<H> {
    proof fn lemma_index_of_key(self, j: int)
        requires
            self.keys_unique(),
            0 <= j < self.childern@.len(),
        ensures
            self.child_index(self.childern@[j].0@) == Some(j),
    {
        let k = self.childern@[j].0@;
        assert(self.childern@[j].0@ == k);
        let c = choose|i: int| 0 <= i < self.childern@.len() && #[trigger] self.childern@[i].0@ == k;
        if c < j {
            assert(self.childern@[c].0@ != self.childern@[j].0@);
        } else if c > j {
            assert(self.childern@[j].0@ != self.childern@[c].0@);
        }
    }

    /// Replacing the child at `j` by one under the same key changes only the
    /// routes that start with that key.
    proof fn lemma_replace_child(a: Self, b: Self, j: int)
        requires
            a.keys_unique(),
            0 <= j < a.childern@.len(),
            b.childern@.len() == a.childern@.len(),
            forall|i: int| 0 <= i < a.childern@.len() && i != j ==> #[trigger] b.childern@[i] == a.childern@[i],
            b.childern@[j].0@ == a.childern@[j].0@,
            b.param_name == a.param_name,
            b.function == a.function,
        ensures
            b.keys_unique(),
            forall|keys: Seq<Seq<char>>|
                keys.len() > 0 && keys[0] != a.childern@[j].0@ ==> #[trigger] b.lookup(keys) == a.lookup(keys),
            forall|keys: Seq<Seq<char>>|
                keys.len() > 0 && keys[0] == a.childern@[j].0@ ==> #[trigger] b.lookup(keys)
                    == b.childern@[j].1.lookup(keys.drop_first()),
            forall|keys: Seq<Seq<char>>|
                keys.len() > 0 && keys[0] == a.childern@[j].0@ ==> #[trigger] a.lookup(keys)
                    == a.childern@[j].1.lookup(keys.drop_first()),
            b.lookup(Seq::empty()) == a.lookup(Seq::empty()),
    {
        assert forall|x: int, y: int| 0 <= x < y < b.childern@.len() implies #[trigger] b.childern@[x].0@ != #[trigger] b.childern@[y].0@ by {
            assert(a.childern@[x].0@ != a.childern@[y].0@);
            if x != j {
                assert(b.childern@[x] == a.childern@[x]);
            }
            if y != j {
                assert(b.childern@[y] == a.childern@[y]);
            }
        }
        a.lemma_index_of_key(j);
        b.lemma_index_of_key(j);
        assert forall|keys: Seq<Seq<char>>|
            keys.len() > 0 && keys[0] != a.childern@[j].0@ implies #[trigger] b.lookup(keys) == a.lookup(keys) by {
            let k = keys[0];
            if a.child_index(k) is Some {
                let i = a.child_index(k)->0;
                assert(a.childern@[i].0@ == k);
                assert(i != j);
                assert(b.childern@[i] == a.childern@[i]);
                a.lemma_index_of_key(i);
                b.lemma_index_of_key(i);
            } else {
                if b.child_index(k) is Some {
                    let i = b.child_index(k)->0;
                    assert(b.childern@[i].0@ == k);
                    assert(i != j);
                    assert(b.childern@[i] == a.childern@[i]);
                    a.lemma_index_of_key(i);
                }
            }
        }
    }

    /// Adding an empty child under a new key changes no route.
    proof fn lemma_push_empty(a: Self, b: Self, k: Seq<char>)
        requires
            a.well_formed(),
            a.child_index(k) is None,
            b.childern@ == a.childern@.push(b.childern@.last()),
            b.childern@.last().0@ == k,
            b.childern@.last().1@ == Map::<Seq<Seq<char>>, (Seq<char>, H)>::empty(),
            b.childern@.last().1.well_formed(),
            b.param_name == a.param_name,
            b.function == a.function,
        ensures
            b.keys_unique(),
            b@ == a@,
            b.child_index(k) == Some(a.childern@.len() as int),
    {
        let n = a.childern@.len() as int;
        assert forall|x: int, y: int| 0 <= x < y < b.childern@.len() implies #[trigger] b.childern@[x].0@ != #[trigger] b.childern@[y].0@ by {
            if y == n {
                assert(b.childern@[x] == a.childern@[x]);
                if a.childern@[x].0@ == k {
                    assert(a.child_index(k) is Some);
                }
            } else {
                assert(b.childern@[x] == a.childern@[x]);
                assert(b.childern@[y] == a.childern@[y]);
            }
        }
        b.lemma_index_of_key(n);
        assert forall|keys: Seq<Seq<char>>| #[trigger] b.lookup(keys) == a.lookup(keys) by {
            if keys.len() > 0 {
                let kk = keys[0];
                if kk == k {
                    b.childern@.last().1.lemma_view_lookup(keys.drop_first());
                } else if a.child_index(kk) is Some {
                    let i = a.child_index(kk)->0;
                    assert(a.childern@[i].0@ == kk);
                    assert(b.childern@[i] == a.childern@[i]);
                    a.lemma_index_of_key(i);
                    b.lemma_index_of_key(i);
                } else if b.child_index(kk) is Some {
                    let i = b.child_index(kk)->0;
                    assert(b.childern@[i].0@ == kk);
                    assert(i != n);
                    assert(b.childern@[i] == a.childern@[i]);
                    a.lemma_index_of_key(i);
                }
            }
        }
        assert(b@ =~= a@);
    }

    /// Adds the route written `path`, whose segments from `start` on are
    /// `segments[start..]`, with `handler`.
    fn insert_from(&mut self, segments: &[String], start: usize, path: &str, handler: H)
        requires
            old(self).well_formed(),
            start <= segments@.len(),
        ensures
            final(self).well_formed(),
            final(self)@ == old(self)@.insert(
                route_keys(strings_view(segments@)).subrange(start as int, segments@.len() as int),
                (path@, handler),
            ),
        decreases segments@.len() - start,
    {
        let ghost keys = route_keys(strings_view(segments@)).subrange(start as int, segments@.len() as int);
        let ghost a = *self;
        if start == segments.len() {
            self.param_name = Some(path.to_owned());
            self.function = Some(handler);
            proof {
                assert(keys =~= Seq::<Seq<char>>::empty());
                assert forall|ks: Seq<Seq<char>>| ks.len() > 0 implies #[trigger] self.lookup(ks) == a.lookup(ks) by {
                    if a.child_index(ks[0]) is Some {
                        let i = a.child_index(ks[0])->0;
                        assert(a.childern@[i].0@ == ks[0]);
                        a.lemma_index_of_key(i);
                        self.lemma_index_of_key(i);
                    } else if self.child_index(ks[0]) is Some {
                        let i = self.child_index(ks[0])->0;
                        assert(self.childern@[i].0@ == ks[0]);
                        a.lemma_index_of_key(i);
                    }
                }
                assert forall|ks: Seq<Seq<char>>| #[trigger] self@.contains_key(ks) == a@.insert(keys, (path@, handler)).contains_key(ks)
                    && (self@.contains_key(ks) ==> self@[ks] == a@.insert(keys, (path@, handler))[ks]) by {
                    self.lemma_view_lookup(ks);
                    a.lemma_view_lookup(ks);
                    if ks.len() == 0 {
                        assert(ks =~= keys);
                    }
                }
                assert(self@ =~= a@.insert(keys, (path@, handler)));
            }
            return;
        }
        let key = route_key_of(segments[start].as_str());
        assert(keys[0] == key@);
        let idx = match self.find_child(&key) {
            Some(i) => i,
            None => {
                let fresh = HashRadixNode::new();
                self.childern.push((key, fresh));
                proof {
                    Self::lemma_push_empty(a, *self, key@);
                }
                self.childern.len() - 1
            },
        };
        let ghost b = *self;
        assert(b@ == a@);
        assert(b.keys_unique());
        assert(b.childern@[idx as int].0@ == key@);
        assert(b.childern@[idx as int].1.well_formed()) by {
            if idx < a.childern@.len() {
                assert(b.childern@[idx as int] == a.childern@[idx as int]);
            }
        }
        self.childern[idx].1.insert_from(segments, start + 1, path, handler);
        proof {
            let c = *self;
            let ki = idx as int;
            let sub = keys.drop_first();
            assert(sub =~= route_keys(strings_view(segments@)).subrange(start + 1, segments@.len() as int));
            Self::lemma_replace_child(b, c, ki);
            assert(c.childern@[ki].1.lookup(sub) is Some) by {
                c.childern@[ki].1.lemma_view_lookup(sub);
            }
            assert forall|i: int|
                #![trigger c.childern@[i]]
                0 <= i < c.childern@.len() implies c.childern@[i].1.well_formed() && c.childern@[i].1.nonempty() by {
                if i != ki {
                    assert(c.childern@[i] == b.childern@[i]);
                    assert(i < a.childern@.len());
                    assert(b.childern@[i] == a.childern@[i]);
                }
            }
            assert(c.well_formed());
            assert forall|ks: Seq<Seq<char>>| #[trigger] c.lookup(ks) == a@.insert(keys, (path@, handler)).get(ks) by {
                b.lemma_view_lookup(ks);
                if ks.len() == 0 {
                } else if ks[0] == key@ {
                    let r = ks.drop_first();
                    b.childern@[ki].1.lemma_view_lookup(r);
                    c.childern@[ki].1.lemma_view_lookup(r);
                    if ks =~= keys {
                        assert(r =~= sub);
                    } else {
                        assert(r != sub) by {
                            if r =~= sub {
                                assert(ks.len() == keys.len());
                                assert forall|i: int| 0 <= i < ks.len() implies ks[i] == keys[i] by {
                                    if i > 0 {
                                        assert(ks[i] == r[i - 1]);
                                        assert(keys[i] == sub[i - 1]);
                                    }
                                }
                                assert(ks =~= keys);
                            }
                        }
                    }
                } else {
                    assert(ks != keys);
                }
            }
            assert forall|ks: Seq<Seq<char>>| #[trigger] c@.contains_key(ks) == a@.insert(keys, (path@, handler)).contains_key(ks)
                && (c@.contains_key(ks) ==> c@[ks] == a@.insert(keys, (path@, handler))[ks]) by {
                c.lemma_view_lookup(ks);
            }
            assert(c@ =~= a@.insert(keys, (path@, handler)));
        }
    }
}

impl<H> HashRadixNode<H> {
    /// Adds the route written `path`, with segments `segments`, and its
    /// handler; a route already stored under the same keys is replaced.
    pub fn insert_path(&mut self, segments: &[String], path: &str, handler: H)
        requires
            old(self).well_formed(),
        ensures
            final(self).well_formed(),
            final(self)@ == old(self)@.insert(route_keys(strings_view(segments@)), (path@, handler)),
    {
        self.insert_from(segments, 0, path, handler);
        assert(route_keys(strings_view(segments@)).subrange(0, segments@.len() as int)
            =~= route_keys(strings_view(segments@)));
    }

    /// Walks `segments[start..]` from this node, recording in `captured`
    /// each segment taken under the parameter key; returns the handler and
    /// the rule of the route reached.
    fn match_from<'a>(
        &'a self,
        segments: &[String],
        start: usize,
        captured: &mut PathParams,
        backward: bool,
    ) -> (r: Option<(&'a H, &'a String)>)
        requires
            self.well_formed(),
            start <= segments@.len(),
        ensures
            match (r, route_walk(self@, strings_view(segments@).subrange(start as int, segments@.len() as int))) {
                (None, None) => true,
                (Some((h, rule)), Some((rule2, h2))) => *h == h2 && rule@ == rule2,
                _ => false,
            },
            final(captured)@ == walk_capture(
                self@,
                strings_view(segments@).subrange(start as int, segments@.len() as int),
                start as nat,
                segments@.len() as nat,
                backward,
                old(captured)@,
            ),
        decreases segments@.len() - start,
    {
        let ghost rest = strings_view(segments@).subrange(start as int, segments@.len() as int);
        if start == segments.len() {
            proof {
                assert(rest =~= Seq::<Seq<char>>::empty());
                self.lemma_view_lookup(Seq::empty());
            }
            match &self.function {
                Some(func) => match &self.param_name {
                    Some(rule) => {
                        return Some((func, rule));
                    },
                    None => {
                        return None;
                    },
                },
                None => {
                    return None;
                },
            }
        }
        let seg = &segments[start];
        let colon = ":".to_owned();
        proof {
            reveal_strlit(":");
            assert(colon@ =~= seq![':']);
            self.lemma_child(seg@);
            self.lemma_child(seq![':']);
            assert(rest[0] == seg@);
            assert(rest.drop_first() =~= strings_view(segments@).subrange(start + 1, segments@.len() as int));
        }
        let (found, is_colon) = match self.find_child(seg) {
            Some(i) => (Some(i), *seg == colon),
            None => (self.find_child(&colon), true),
        };
        match found {
            Some(i) => {
                if is_colon {
                    let label = if backward { start + 1 } else { segments.len() - start };
                    captured.insert(placeholder_name(label), seg.clone());
                }
                self.childern[i].1.match_from(segments, start + 1, captured, backward)
            },
            None => None,
        }
    }

    /// Finds the route that a request with the segments `segments` reaches
    /// from this node: at each segment the child stored under the segment
    /// itself, else the parameter child. Each segment taken under the
    /// parameter key is recorded, beside `captured_params`, under the
    /// placeholder named after its place counted from the end; the
    /// parameters returned are those that the route's rule takes from these
    /// placeholders.
    pub fn node_match(&self, segments: &[String], captured_params: &PathParams) -> (r: Option<(&H, PathParams)>)
        requires
            self.well_formed(),
        ensures
            match (r, route_walk(self@, strings_view(segments@))) {
                (None, None) => true,
                (Some((h, p)), Some((rule, h2))) => *h == h2 && p@ == bound_params(
                    path_segments(rule),
                    walk_capture(self@, strings_view(segments@), 0, segments@.len() as nat, false, captured_params@),
                ),
                _ => false,
            },
    {
        assert(strings_view(segments@).subrange(0, segments@.len() as int) =~= strings_view(segments@));
        let mut captured = captured_params.copy();
        match self.match_from(segments, 0, &mut captured, false) {
            Some((h, rule)) => Some((h, bind_rule_params(rule.as_str(), &captured))),
            None => None,
        }
    }
}

impl<H> HashRadixNode<H> {
    /// Follows `segments[start..]` by exact keys only, as `process::node_match` does.
    pub(crate) fn match_exact_from<'a>(&'a self, segments: &[String], start: usize, captured_params: &PathParams) -> (r: Option<(&'a H, PathParams)>)
        requires
            self.well_formed(),
            start <= segments@.len(),
            ({
                let rest = strings_view(segments@).subrange(start as int, segments@.len() as int);
                (rest.len() == 0 || exists|more: Seq<Seq<char>>| #[trigger] self@.contains_key(rest + more))
                    ==> self@.contains_key(rest)
            }),
        ensures
            ({
                let rest = strings_view(segments@).subrange(start as int, segments@.len() as int);
                &&& r is Some <==> self@.contains_key(rest)
                &&& r matches Some((h, p)) ==> *h == self@[rest].1 && p@ == bound_params(
                    path_segments(self@[rest].0),
                    captured_params@,
                )
            }),
        decreases segments@.len() - start,
    {
        let ghost rest = strings_view(segments@).subrange(start as int, segments@.len() as int);
        if start == segments.len() && self.param_name.is_some() {
            proof {
                assert(rest =~= Seq::<Seq<char>>::empty());
                self.lemma_view_lookup(Seq::empty());
            }
            match &self.function {
                Some(func) => match &self.param_name {
                    Some(rule) => {
                        let params = bind_rule_params(rule.as_str(), captured_params);
                        return Some((func, params));
                    },
                    None => {
                        return None;
                    },
                },
                None => {
                    return None;
                },
            }
        }
        proof {
            if start == segments@.len() {
                assert(rest =~= Seq::<Seq<char>>::empty());
                self.lemma_view_lookup(Seq::empty());
            }
        }
        let seg = &segments[start];
        proof {
            self.lemma_child(seg@);
            assert(rest[0] == seg@);
        }
        match self.find_child(seg) {
            Some(i) => {
                let child = &self.childern[i].1;
                proof {
                    let tail = strings_view(segments@).subrange(start + 1, segments@.len() as int);
                    assert(rest =~= seq![seg@] + tail);
                    assert(below(self@, seg@) =~= child@);
                    assert forall|more: Seq<Seq<char>>| child@.contains_key(tail + more) implies #[trigger] self@.contains_key(rest + more) by {
                        assert(seq![seg@] + (tail + more) =~= rest + more);
                    }
                    if tail.len() == 0 || exists|more: Seq<Seq<char>>| #[trigger] child@.contains_key(tail + more) {
                        if tail.len() == 0 {
                            assert(child.nonempty()) by {
                                assert(self.childern@[i as int].1.well_formed());
                            }
                            let w = choose|keys: Seq<Seq<char>>| #[trigger] child.lookup(keys) is Some;
                            child.lemma_view_lookup(w);
                            assert(tail + w =~= w);
                            assert(self@.contains_key(rest + w));
                        } else {
                            let m = choose|more: Seq<Seq<char>>| #[trigger] child@.contains_key(tail + more);
                            assert(self@.contains_key(rest + m));
                        }
                        assert(self@.contains_key(rest));
                        assert(rest =~= seq![seg@] + tail);
                        assert(child@.contains_key(tail));
                    }
                    assert(self.childern@[i as int].1.well_formed());
                }
                child.match_exact_from(segments, start + 1, captured_params)
            },
            None => {
                proof {
                    if self@.contains_key(rest) {
                        assert(rest =~= seq![seg@] + rest.drop_first());
                        assert(has_child(self@, seg@));
                    }
                }
                None
            },
        }
    }
}

impl<H> HashRadixNode<H> {
    /// A node is reached from this one by following `keys`.
    pub closed spec fn has_node(self, keys: Seq<Seq<char>>) -> bool
        decreases keys.len(),
    {
        if keys.len() == 0 {
            true
        } else {
            match self.child_index(keys[0]) {
                Some(i) => self.childern@[i].1.has_node(keys.drop_first()),
                None => false,
            }
        }
    }

    /// In a well-formed node, the nodes are exactly those on the way to a
    /// route.
    proof fn lemma_has_node(self, keys: Seq<Seq<char>>)
        requires
            self.well_formed(),
        ensures
            self.has_node(keys) == (keys.len() == 0 || exists|more: Seq<Seq<char>>| #[trigger] self@.contains_key(keys + more)),
        decreases keys.len(),
    {
        if keys.len() > 0 {
            let k = keys[0];
            let rest = keys.drop_first();
            self.lemma_child(k);
            assert forall|more: Seq<Seq<char>>| #[trigger] self@.contains_key(keys + more) == below(self@, k).contains_key(rest + more) by {
                assert(seq![k] + (rest + more) =~= keys + more);
            }
            match self.child_index(k) {
                Some(i) => {
                    let c = self.childern@[i].1;
                    assert(c.well_formed());
                    c.lemma_has_node(rest);
                    assert(below(self@, k) =~= c@);
                    if rest.len() == 0 {
                        assert(has_child(self@, k));
                        let m = choose|m: Seq<Seq<char>>| #[trigger] self@.contains_key(seq![k] + m);
                        assert(keys =~= seq![k]);
                        assert(self@.contains_key(keys + m));
                    } else if c.has_node(rest) {
                        let m = choose|m: Seq<Seq<char>>| #[trigger] c@.contains_key(rest + m);
                        assert(self@.contains_key(keys + m));
                    } else {
                        if exists|more: Seq<Seq<char>>| #[trigger] self@.contains_key(keys + more) {
                            let m = choose|m: Seq<Seq<char>>| #[trigger] self@.contains_key(keys + m);
                            assert(c@.contains_key(rest + m));
                        }
                    }
                },
                None => {
                    if exists|more: Seq<Seq<char>>| #[trigger] self@.contains_key(keys + more) {
                        let m = choose|m: Seq<Seq<char>>| #[trigger] self@.contains_key(keys + m);
                        assert(seq![k] + (rest + m) =~= keys + m);
                        assert(has_child(self@, k));
                    }
                },
            }
        }
    }
}

/// Adding a route removes no node and adds nodes only on the way to the
/// route; every other route stays as it was.
pub proof fn law_insert_path_nodes<H>(
    a: HashRadixNode<H>,
    b: HashRadixNode<H>,
    keys: Seq<Seq<char>>,
    v: (Seq<char>, H),
)
    requires
        a.well_formed(),
        b.well_formed(),
        b@ == a@.insert(keys, v),
    ensures
        forall|k: Seq<Seq<char>>| #[trigger] b.has_node(k) == (a.has_node(k) || (k.len() <= keys.len() && k == keys.take(k.len() as int))),
        forall|k: Seq<Seq<char>>| k != keys ==> (#[trigger] b@.contains_key(k) == a@.contains_key(k) && (a@.contains_key(k) ==> b@[k] == a@[k])),
{
    assert forall|k: Seq<Seq<char>>| #[trigger] b.has_node(k) == (a.has_node(k) || (k.len() <= keys.len() && k == keys.take(k.len() as int))) by {
        a.lemma_has_node(k);
        b.lemma_has_node(k);
        if k.len() <= keys.len() && k == keys.take(k.len() as int) {
            let m = keys.skip(k.len() as int);
            assert(k + m =~= keys);
            assert(b@.contains_key(k + m));
        }
        if b.has_node(k) && k.len() > 0 {
            let m = choose|m: Seq<Seq<char>>| #[trigger] b@.contains_key(k + m);
            if k + m == keys {
                assert(k =~= keys.take(k.len() as int));
            } else {
                assert(a@.contains_key(k + m));
            }
        }
        if a.has_node(k) && k.len() > 0 {
            let m = choose|m: Seq<Seq<char>>| #[trigger] a@.contains_key(k + m);
            assert(b@.contains_key(k + m));
        }
    }
}

/// The routes of a tree, each stored twice: under its segments read from
/// the front, and under its segments read from the back.
pub struct HashRadixTree<H> {
    exactlychildern: HashRadixNode<H>,
    backwardchildern: HashRadixNode<H>,
}

/// A copy of `v` in reverse order.
fn reversed(v: &[String]) -> (r: Vec<String>)
    ensures
        strings_view(r@) == strings_view(v@).reverse(),
{
    let mut r: Vec<String> = Vec::new();
    let mut i: usize = v.len();
    while i > 0
        invariant
            i <= v@.len(),
            r@.len() == v@.len() - i,
            forall|j: int| 0 <= j < r@.len() ==> #[trigger] r@[j]@ == v@[v@.len() - 1 - j]@,
        decreases i,
    {
        i = i - 1;
        r.push(v[i].clone());
    }
    assert(strings_view(r@) =~= strings_view(v@).reverse());
    r
}

/// The parameters a rule takes from placeholders that hold, for each of its
/// parameter segments, the request's segment at that place, under the
/// placeholder named after the place counted from the end, and hold nothing
/// for its other segments: the same as what the rule captures from the
/// request directly.
proof fn lemma_bind_from_marks(rule: Seq<Seq<char>>, segs: Seq<Seq<char>>, cap: Map<Seq<char>, Seq<char>>, m: nat)
    requires
        rule.len() == segs.len(),
        m <= rule.len(),
        forall|j: int| 0 <= j < rule.len() ==> (#[trigger] cap.contains_key(placeholder((rule.len() - j) as nat))) == is_param(rule[j]),
        forall|j: int| 0 <= j < rule.len() && is_param(rule[j]) ==> cap[placeholder((rule.len() - j) as nat)] == #[trigger] segs[j],
    ensures
        bind_prefix(rule, m, cap) == captures_prefix(rule, segs, m),
    decreases m,
{
    if m > 0 {
        lemma_bind_from_marks(rule, segs, cap, (m - 1) as nat);
        let j = m - 1;
        assert(cap.contains_key(placeholder((rule.len() - j) as nat)) == is_param(rule[j]));
        if is_param(rule[j]) {
            assert(cap[placeholder((rule.len() - j) as nat)] == segs[j]);
        }
    }
}

/// What a tree's lookup returns: the route reached by a walk whose first
/// segment is looked up literally, in a table where every route is stored
/// under the keys of its own segments, fits the request, and the parameters
/// its rule takes from what the walk recorded are those it captures from the
/// request.
proof fn lemma_tree_result<H>(
    r: Map<Seq<Seq<char>>, (Seq<char>, H)>,
    segs: Seq<Seq<char>>,
    backward: bool,
)
    requires
        routes_keyed(r, backward),
        segs.len() > 0,
        route_walk_literal_first(r, if backward { segs.reverse() } else { segs }) is Some,
    ensures
        ({
            let walked = if backward { segs.reverse() } else { segs };
            let found = route_walk_literal_first(r, walked)->0;
            let rule = found.0;
            &&& pattern_fits(path_segments(rule), segs)
            &&& bound_params(path_segments(rule), walk_capture_literal_first(r, walked, backward)) == captures(
                path_segments(rule),
                segs,
            )
        }),
{
    let walked = if backward { segs.reverse() } else { segs };
    let n = segs.len();
    lemma_literal_first_result(r, walked, backward);
    let keys = walk_keys_literal_first(r, walked);
    let cap = walk_capture_literal_first(r, walked, backward);
    let rule = r[keys].0;
    let rs = path_segments(rule);
    assert(route_walk_literal_first(r, walked)->0 == r[keys]);
    assert(keys == (if backward { route_keys(rs.reverse()) } else { route_keys(rs) }));
    assert(rs.len() == n);
    assert forall|j: int| 0 <= j < n implies (is_param(#[trigger] rs[j]) || rs[j] == segs[j]) by {
        let x = if backward { n - 1 - j } else { j };
        assert(keys[x] == route_key(rs[j]));
        assert(keys[x] == walked[x] || keys[x] == seq![':']);
        lemma_param_key_of(rs[j]);
    }
    assert forall|j: int| 0 <= j < n implies (#[trigger] cap.contains_key(placeholder((rs.len() - j) as nat))) == is_param(rs[j])
        && (is_param(rs[j]) ==> cap[placeholder((rs.len() - j) as nat)] == segs[j]) by {
        let x = if backward { n - 1 - j } else { j };
        assert(keys[x] == route_key(rs[j]));
        lemma_param_key_of(rs[j]);
        assert(mark(x as nat, n, backward) == placeholder((rs.len() - j) as nat));
        assert(walked[x] == segs[j]);
        if is_param(rs[j]) {
            assert(keys[x] == seq![':']);
            assert(cap[mark(x as nat, n, backward)] == walked[x]);
        } else {
            let c = placeholder((rs.len() - j) as nat);
            assert forall|i: int| 0 <= i < n && keys[i] == seq![':'] implies c != #[trigger] mark(i as nat, n, backward) by {
                if i == x {
                } else {
                    lemma_mark_distinct(i as nat, x as nat, n, backward);
                }
            }
        }
    }
    assert forall|j: int| 0 <= j < rs.len() && is_param(rs[j]) implies cap[placeholder((rs.len() - j) as nat)] == #[trigger] segs[j] by {
        assert(cap.contains_key(placeholder((rs.len() - j) as nat)) == is_param(rs[j]));
    }
    lemma_bind_from_marks(rs, segs, cap, rs.len());
}

impl<H> HashRadixTree<H> {
    /// The routes by the keys of their segments read from the front.
    pub closed spec fn forward_routes(self) -> Map<Seq<Seq<char>>, (Seq<char>, H)> {
        self.exactlychildern@
    }

    /// The routes by the keys of their segments read from the back.
    pub closed spec fn backward_routes(self) -> Map<Seq<Seq<char>>, (Seq<char>, H)> {
        self.backwardchildern@
    }

    /// The tree's invariant: both nodes are well formed, and every route is
    /// stored under the keys of its own rule's segments.
    pub closed spec fn well_formed(self) -> bool {
        &&& self.exactlychildern.well_formed()
        &&& self.backwardchildern.well_formed()
        &&& routes_keyed(self.exactlychildern@, false)
        &&& routes_keyed(self.backwardchildern@, true)
    }

    /// A tree with no routes.
    pub fn new() -> (t: Self)
        ensures
            t.well_formed(),
            t.forward_routes() == Map::<Seq<Seq<char>>, (Seq<char>, H)>::empty(),
            t.backward_routes() == Map::<Seq<Seq<char>>, (Seq<char>, H)>::empty(),
    {
        HashRadixTree { exactlychildern: HashRadixNode::new(), backwardchildern: HashRadixNode::new() }
    }

    fn match_literal_first<'a>(
        root: &'a HashRadixNode<H>,
        segments: &[String],
        captured: &mut PathParams,
        backward: bool,
    ) -> (r: Option<(&'a H, &'a String)>)
        requires
            root.well_formed(),
            segments@.len() > 0,
            old(captured)@ == Map::<Seq<char>, Seq<char>>::empty(),
        ensures
            match (r, route_walk_literal_first(root@, strings_view(segments@))) {
                (None, None) => true,
                (Some((h, rule)), Some((rule2, h2))) => *h == h2 && rule@ == rule2,
                _ => false,
            },
            r is Some ==> final(captured)@ == walk_capture_literal_first(root@, strings_view(segments@), backward),
    {
        let ghost sv = strings_view(segments@);
        proof {
            root.lemma_child(segments@[0]@);
            assert(sv.drop_first() =~= sv.subrange(1, segments@.len() as int));
        }
        match root.find_child(&segments[0]) {
            Some(i) => {
                let colon = ":".to_owned();
                proof {
                    reveal_strlit(":");
                    assert(colon@ =~= seq![':']);
                }
                if segments[0] == colon {
                    let label = if backward { 1 } else { segments.len() };
                    captured.insert(placeholder_name(label), segments[0].clone());
                }
                root.childern[i].1.match_from(segments, 1, captured, backward)
            },
            None => None,
        }
    }

    /// Finds the route for a request with the segments `segments`: first in
    /// the routes read from the front, with the first segment taken
    /// literally; failing that, in the routes read from the back, with the
    /// request reversed and its last segment taken literally. The route
    /// found fits the request, and the parameters returned are those the
    /// route's rule captures from the request's segments.
    pub fn match_path(&self, segments: &[String]) -> (r: Option<(&H, PathParams)>)
        requires
            self.well_formed(),
            segments@.len() > 0,
        ensures
            ({
                let fwd = route_walk_literal_first(self.forward_routes(), strings_view(segments@));
                let bwd = route_walk_literal_first(self.backward_routes(), strings_view(segments@).reverse());
                let chosen = if fwd is Some { fwd } else { bwd };
                match (r, chosen) {
                    (None, None) => true,
                    (Some((h, p)), Some((rule, h2))) => {
                        &&& *h == h2
                        &&& p@ == captures(path_segments(rule), strings_view(segments@))
                        &&& pattern_fits(path_segments(rule), strings_view(segments@))
                    },
                    _ => false,
                }
            }),
    {
        let ghost sv = strings_view(segments@);
        let mut captured = PathParams::new();
        match Self::match_literal_first(&self.exactlychildern, segments, &mut captured, false) {
            Some((h, rule)) => {
                proof {
                    lemma_tree_result(self.exactlychildern@, sv, false);
                }
                return Some((h, bind_rule_params(rule.as_str(), &captured)));
            },
            None => {},
        }
        let backward_segments = reversed(segments);
        let mut captured_back = PathParams::new();
        match Self::match_literal_first(&self.backwardchildern, backward_segments.as_slice(), &mut captured_back, true) {
            Some((h, rule)) => {
                proof {
                    lemma_tree_result(self.backwardchildern@, sv, true);
                }
                Some((h, bind_rule_params(rule.as_str(), &captured_back)))
            },
            None => None,
        }
    }
}

impl<H: Clone> HashRadixTree<H> {
    /// Adds the route written `path`, with `handler`, under its segments read
    /// from the front; and, with a clone of `handler`, under its segments
    /// read from the back.
    pub fn route(&mut self, path: &str, handler: H)
        requires
            old(self).well_formed(),
            path_segments(path@).len() > 0,
        ensures
            final(self).well_formed(),
            final(self).forward_routes() == old(self).forward_routes().insert(
                route_keys(path_segments(path@)),
                (path@, handler),
            ),
            final(self).backward_routes().contains_key(route_keys(path_segments(path@).reverse())),
            final(self).backward_routes() == old(self).backward_routes().insert(
                route_keys(path_segments(path@).reverse()),
                (path@, final(self).backward_routes()[route_keys(path_segments(path@).reverse())].1),
            ),
            cloned(handler, final(self).backward_routes()[route_keys(path_segments(path@).reverse())].1),
    {
        let path_str = split_path(path);
        let backward_segs = reversed(path_str.as_slice());
        let back_handler = handler.clone();
        self.exactlychildern.insert_path(path_str.as_slice(), path, handler);
        self.backwardchildern.insert_path(backward_segs.as_slice(), path, back_handler);
        proof {
            let f = self.exactlychildern@;
            let b = self.backwardchildern@;
            assert forall|keys: Seq<Seq<char>>| #[trigger] f.contains_key(keys) implies keys == route_keys(path_segments(f[keys].0)) by {
                if keys != route_keys(path_segments(path@)) {
                    assert(old(self).exactlychildern@.contains_key(keys));
                }
            }
            assert forall|keys: Seq<Seq<char>>| #[trigger] b.contains_key(keys) implies keys == route_keys(path_segments(b[keys].0).reverse()) by {
                if keys != route_keys(path_segments(path@).reverse()) {
                    assert(old(self).backwardchildern@.contains_key(keys));
                }
            }
        }
    }
}

} // verus!
