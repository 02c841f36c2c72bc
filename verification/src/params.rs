//! Path parameters captured while matching a route, and the names of the
//! placeholders under which a match records them.
use vstd::prelude::*;
use vstd::string::StringExecFns;
use crate::path::{is_param, param_name, path_segments, strings_view, split_path, is_param_segment, param_name_of};

verus! {

/// The map that a list of `(key, value)` pairs stands for when each pair is
/// inserted in order: a later pair overwrites an earlier one with the same key.
pub open spec fn pairs_map(pairs: Seq<(Seq<char>, Seq<char>)>) -> Map<Seq<char>, Seq<char>>
    decreases pairs.len(),
{
    if pairs.len() == 0 {
        Map::empty()
    } else {
        pairs_map(pairs.drop_last()).insert(pairs.last().0, pairs.last().1)
    }
}

/// The views of a list of string pairs.
pub open spec fn pairs_view(v: Seq<(String, String)>) -> Seq<(Seq<char>, Seq<char>)> {
    v.map_values(|p: (String, String)| (p.0@, p.1@))
}

/// Parameters taken from a request path, by name, kept as a list of
/// `(name, value)` pairs in the order they were set; a name's value is the
/// one it was set to last.
pub struct PathParams {
    entries: Vec<(String, String)>,
}

impl View for PathParams {
    type V = Map<Seq<char>, Seq<char>>;

    closed spec fn view(&self) -> Map<Seq<char>, Seq<char>> {
        pairs_map(pairs_view(self.entries@))
    }
}

/// If no pair from index `m` on has key `k`, the pairs after `m` do not
/// change what the map says of `k`.
proof fn lemma_pairs_map_prefix(pairs: Seq<(Seq<char>, Seq<char>)>, m: int, k: Seq<char>)
    requires
        0 <= m <= pairs.len(),
        forall|j: int| m <= j < pairs.len() ==> pairs[j].0 != k,
    ensures
        pairs_map(pairs).contains_key(k) == pairs_map(pairs.take(m)).contains_key(k),
        pairs_map(pairs).contains_key(k) ==> pairs_map(pairs)[k] == pairs_map(pairs.take(m))[k],
    decreases pairs.len(),
{
    if pairs.len() > m {
        assert(pairs.drop_last().take(m) =~= pairs.take(m));
        lemma_pairs_map_prefix(pairs.drop_last(), m, k);
    } else {
        assert(pairs.take(m) =~= pairs);
    }
}

impl PathParams {
    /// An empty set of parameters.
    pub fn new() -> (p: PathParams)
        ensures
            p@ == Map::<Seq<char>, Seq<char>>::empty(),
    {
        PathParams { entries: Vec::new() }
    }

    /// Records `value` under `name`, replacing what was recorded there before.
    pub fn insert(&mut self, name: String, value: String)
        ensures
            final(self)@ == old(self)@.insert(name@, value@),
    {
        let ghost before = pairs_view(self.entries@);
        self.entries.push((name, value));
        assert(pairs_view(self.entries@).drop_last() =~= before);
    }

    /// The value recorded under `name`, if any.
    pub fn get(&self, name: &str) -> (r: Option<&String>)
        ensures
            r is Some <==> self@.contains_key(name@),
            r matches Some(v) ==> v@ == self@[name@],
    {
        let ghost pv = pairs_view(self.entries@);
        let key: String = name.to_owned();
        let mut i = self.entries.len();
        while i > 0
            invariant
                i <= self.entries@.len(),
                key@ == name@,
                pv == pairs_view(self.entries@),
                forall|j: int| i <= j < pv.len() ==> pv[j].0 != name@,
            decreases i,
        {
            let e = &self.entries[i - 1];
            if e.0 == key {
                proof {
                    lemma_pairs_map_prefix(pv, i as int, name@);
                    assert(pv.take(i as int).drop_last() =~= pv.take(i - 1));
                }
                return Some(&e.1);
            }
            i = i - 1;
        }
        proof {
            lemma_pairs_map_prefix(pv, 0, name@);
            assert(pv.take(0) =~= Seq::<(Seq<char>, Seq<char>)>::empty());
        }
        None
    }

    /// A copy of these parameters.
    pub fn copy(&self) -> (p: PathParams)
        ensures
            p@ == self@,
    {
        let mut entries: Vec<(String, String)> = Vec::new();
        let mut i: usize = 0;
        while i < self.entries.len()
            invariant
                i <= self.entries@.len(),
                entries@.len() == i,
                forall|j: int| 0 <= j < i ==> #[trigger] entries@[j].0@ == self.entries@[j].0@ && entries@[j].1@ == self.entries@[j].1@,
            decreases self.entries@.len() - i,
        {
            let e = &self.entries[i];
            entries.push((e.0.clone(), e.1.clone()));
            i = i + 1;
        }
        assert(pairs_view(entries@) =~= pairs_view(self.entries@));
        PathParams { entries }
    }

    /// The recorded pairs in the order they were recorded; a later pair
    /// overrides an earlier one with the same name.
    pub fn pairs(&self) -> (r: &Vec<(String, String)>)
        ensures
            pairs_map(pairs_view(r@)) == self@,
    {
        &self.entries
    }
}

/// The decimal digit `d` as a character.
pub open spec fn digit_char(d: nat) -> char {
    if d == 0 { '0' } else if d == 1 { '1' } else if d == 2 { '2' } else if d == 3 { '3' }
    else if d == 4 { '4' } else if d == 5 { '5' } else if d == 6 { '6' } else if d == 7 { '7' }
    else if d == 8 { '8' } else { '9' }
}

/// The decimal notation of `n`, without leading zeros.
pub open spec fn decimal(n: nat) -> Seq<char>
    decreases n,
{
    if n < 10 {
        seq![digit_char(n)]
    } else {
        decimal(n / 10).push(digit_char(n % 10))
    }
}

/// The name of the placeholder under which the segment `k` places from the
/// end of a path is recorded: `param_` and `k` in decimal.
pub open spec fn placeholder(k: nat) -> Seq<char> {
    seq!['p', 'a', 'r', 'a', 'm', '_'] + decimal(k)
}

proof fn lemma_decimal_nonempty(n: nat)
    ensures
        decimal(n).len() >= 1,
        n >= 10 ==> decimal(n).len() >= 2,
    decreases n,
{
    if n >= 10 {
        lemma_decimal_nonempty(n / 10);
    }
}

proof fn lemma_decimal_injective(a: nat, b: nat)
    requires
        decimal(a) == decimal(b),
    ensures
        a == b,
    decreases a,
{
    lemma_decimal_nonempty(a);
    lemma_decimal_nonempty(b);
    if a >= 10 && b >= 10 {
        assert(decimal(a).last() == digit_char(a % 10));
        assert(decimal(b).last() == digit_char(b % 10));
        assert(decimal(a).drop_last() =~= decimal(a / 10));
        assert(decimal(b).drop_last() =~= decimal(b / 10));
        lemma_decimal_injective(a / 10, b / 10);
    } else if a < 10 && b < 10 {
        assert(decimal(a)[0] == digit_char(a));
        assert(decimal(b)[0] == digit_char(b));
    } else {
        assert(decimal(a).len() != decimal(b).len());
    }
}

/// Different places give different placeholder names.
pub proof fn lemma_placeholder_injective(a: nat, b: nat)
    requires
        a != b,
    ensures
        placeholder(a) != placeholder(b),
{
    if placeholder(a) == placeholder(b) {
        assert(placeholder(a).skip(6) =~= decimal(a));
        assert(placeholder(b).skip(6) =~= decimal(b));
        lemma_decimal_injective(a, b);
    }
}

fn digit_str(d: usize) -> (s: &'static str)
    requires
        d < 10,
    ensures
        s@ == seq![digit_char(d as nat)],
{
    proof {
        reveal_strlit("0");
        reveal_strlit("1");
        reveal_strlit("2");
        reveal_strlit("3");
        reveal_strlit("4");
        reveal_strlit("5");
        reveal_strlit("6");
        reveal_strlit("7");
        reveal_strlit("8");
        reveal_strlit("9");
    }
    if d == 0 { "0" } else if d == 1 { "1" } else if d == 2 { "2" } else if d == 3 { "3" }
    else if d == 4 { "4" } else if d == 5 { "5" } else if d == 6 { "6" } else if d == 7 { "7" }
    else if d == 8 { "8" } else { "9" }
}

fn push_decimal(s: &mut String, n: usize)
    ensures
        final(s)@ == old(s)@ + decimal(n as nat),
    decreases n,
{
    if n >= 10 {
        push_decimal(s, n / 10);
    }
    s.append(digit_str(n % 10));
    proof {
        if n >= 10 {
            assert(old(s)@ + decimal((n / 10) as nat) + seq![digit_char((n % 10) as nat)] =~= old(s)@ + decimal(n as nat));
        } else {
            assert(n % 10 == n);
        }
    }
}

/// The placeholder name `param_{k}`.
pub fn placeholder_name(k: usize) -> (s: String)
    ensures
        s@ == placeholder(k as nat),
{
    let mut s = String::from_str("param_");
    proof {
        reveal_strlit("param_");
    }
    push_decimal(&mut s, k);
    s
}

/// What the first `m` segments of the route `rule` take from `captured`:
/// the segment at index `i` is the one `rule.len() - i` places from the end,
/// and a parameter segment there takes the value recorded under
/// `placeholder(rule.len() - i)`, if any, under its own name.
pub open spec fn bind_prefix(
    rule: Seq<Seq<char>>,
    m: nat,
    captured: Map<Seq<char>, Seq<char>>,
) -> Map<Seq<char>, Seq<char>>
    decreases m,
{
    if m == 0 || m > rule.len() {
        Map::empty()
    } else {
        let prev = bind_prefix(rule, (m - 1) as nat, captured);
        let seg = rule[m - 1];
        let key = placeholder((rule.len() - (m - 1)) as nat);
        if is_param(seg) && captured.contains_key(key) {
            prev.insert(param_name(seg), captured[key])
        } else {
            prev
        }
    }
}

/// The parameters that the route `rule` takes from `captured`.
pub open spec fn bound_params(rule: Seq<Seq<char>>, captured: Map<Seq<char>, Seq<char>>) -> Map<Seq<char>, Seq<char>> {
    bind_prefix(rule, rule.len(), captured)
}

/// The parameters of the route written `rule` that `captured` holds values for.
pub fn bind_rule_params(rule: &str, captured: &PathParams) -> (p: PathParams)
    ensures
        p@ == bound_params(path_segments(rule@), captured@),
{
    let segs = split_path(rule);
    let ghost rv = strings_view(segs@);
    let mut out = PathParams::new();
    let mut counter: usize = segs.len();
    let mut i: usize = 0;
    while i < segs.len()
        invariant
            rv == strings_view(segs@),
            rv == path_segments(rule@),
            i <= segs.len(),
            counter == segs.len() - i,
            out@ == bind_prefix(rv, i as nat, captured@),
        decreases segs.len() - i,
    {
        if is_param_segment(segs[i].as_str()) {
            let key = placeholder_name(counter);
            match captured.get(key.as_str()) {
                Some(v) => {
                    let name = param_name_of(segs[i].as_str());
                    out.insert(name, v.clone());
                },
                None => {},
            }
        }
        counter = counter - 1;
        i = i + 1;
    }
    out
}

proof fn lemma_bind_prefix_empty(rule: Seq<Seq<char>>, m: nat)
    ensures
        bind_prefix(rule, m, Map::empty()) == Map::<Seq<char>, Seq<char>>::empty(),
    decreases m,
{
    if m > 0 && m <= rule.len() {
        lemma_bind_prefix_empty(rule, (m - 1) as nat);
    }
}

/// A route binds no parameters when no placeholder holds a value.
pub proof fn law_no_placeholders_no_params(rule: Seq<Seq<char>>)
    ensures
        bound_params(rule, Map::empty()) == Map::<Seq<char>, Seq<char>>::empty(),
{
    lemma_bind_prefix_empty(rule, rule.len());
}

} // verus!
