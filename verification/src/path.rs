//! Splitting a request path into its segments.
use vstd::prelude::*;
use vstd::string::StrSliceExecFns;

verus! {

/// What a left-to-right scan of `s` has seen: the segments completed so far,
/// and the characters of the segment being read.
pub open spec fn scan_path(s: Seq<char>) -> (Seq<Seq<char>>, Seq<char>)
    decreases s.len(),
{
    if s.len() == 0 {
        (Seq::empty(), Seq::empty())
    } else {
        let (done, cur) = scan_path(s.drop_last());
        if s.last() == '/' {
            (if cur.len() > 0 { done.push(cur) } else { done }, Seq::empty())
        } else {
            (done, cur.push(s.last()))
        }
    }
}

/// The segments of a path: the non-empty runs of characters between `/`.
pub open spec fn path_segments(s: Seq<char>) -> Seq<Seq<char>> {
    let (done, cur) = scan_path(s);
    if cur.len() > 0 { done.push(cur) } else { done }
}

/// The views of a vector of strings.
pub open spec fn strings_view(v: Seq<String>) -> Seq<Seq<char>> {
    v.map_values(|x: String| x@)
}

/// Splits `path` at every `/` and keeps the non-empty pieces, in order.
pub fn split_path(path: &str) -> (segs: Vec<String>)
    ensures
        strings_view(segs@) == path_segments(path@),
{
    let n = path.unicode_len();
    let mut segs: Vec<String> = Vec::new();
    let mut start: usize = 0;
    let mut i: usize = 0;
    for c in it: path.chars()
        invariant
            n == path@.len(),
            it.seq() == path@,
            i == it.index(),
            start <= i <= n,
            scan_path(path@.take(i as int)) == (strings_view(segs@), path@.subrange(start as int, i as int)),
    {
        assert(c == path@[i as int]);
        assert(path@.take(i + 1).drop_last() == path@.take(i as int));
        if c == '/' {
            if start < i {
                let piece = path.substring_char(start, i).to_owned();
                segs.push(piece);
            }
            start = i + 1;
        }
        i = i + 1;
    }
    assert(path@.take(n as int) =~= path@);
    if start < n {
        let piece = path.substring_char(start, n).to_owned();
        segs.push(piece);
    }
    segs
}


/// A segment that starts with `:` names a parameter.
pub open spec fn is_param(seg: Seq<char>) -> bool {
    seg.len() > 0 && seg[0] == ':'
}

/// The name of a parameter segment: what follows the `:`.
pub open spec fn param_name(seg: Seq<char>) -> Seq<char> {
    seg.drop_first()
}

/// The key under which a segment of a route is stored: every parameter
/// segment shares the key `:`, any other segment is its own key.
pub open spec fn route_key(seg: Seq<char>) -> Seq<char> {
    if is_param(seg) { seq![':'] } else { seg }
}

/// The keys of a route's segments.
pub open spec fn route_keys(segs: Seq<Seq<char>>) -> Seq<Seq<char>> {
    segs.map_values(|s: Seq<char>| route_key(s))
}

/// Whether `seg` names a parameter.
pub fn is_param_segment(seg: &str) -> (b: bool)
    ensures
        b == is_param(seg@),
{
    !seg.is_empty() && seg.get_char(0) == ':'
}

/// The name of the parameter segment `seg`.
pub fn param_name_of(seg: &str) -> (name: String)
    requires
        is_param(seg@),
    ensures
        name@ == param_name(seg@),
{
    let n = seg.unicode_len();
    let name = seg.substring_char(1, n).to_owned();
    assert(name@ =~= param_name(seg@));
    name
}

/// The key under which `seg` is stored in a route tree.
pub fn route_key_of(seg: &str) -> (key: String)
    ensures
        key@ == route_key(seg@),
{
    if is_param_segment(seg) {
        let key = ":".to_owned();
        proof {
            reveal_strlit(":");
        }
        assert(key@ =~= seq![':']);
        key
    } else {
        seg.to_owned()
    }
}


/// `s` holds no `/`.
pub open spec fn slash_free(s: Seq<char>) -> bool {
    forall|i: int| 0 <= i < s.len() ==> s[i] != '/'
}

/// The path written with a `/` before each of `segs`.
pub open spec fn slash_join(segs: Seq<Seq<char>>) -> Seq<char>
    decreases segs.len(),
{
    if segs.len() == 0 {
        Seq::empty()
    } else {
        slash_join(segs.drop_last()).push('/') + segs.last()
    }
}

proof fn lemma_scan_pieces(s: Seq<char>)
    ensures
        forall|i: int| 0 <= i < scan_path(s).0.len() ==> #[trigger] scan_path(s).0[i].len() > 0
            && slash_free(scan_path(s).0[i]),
        slash_free(scan_path(s).1),
    decreases s.len(),
{
    if s.len() > 0 {
        lemma_scan_pieces(s.drop_last());
    }
}

/// Every segment of a path is non-empty and holds no `/`.
pub proof fn law_segments_are_plain(s: Seq<char>)
    ensures
        forall|i: int| 0 <= i < path_segments(s).len() ==> #[trigger] path_segments(s)[i].len() > 0
            && slash_free(path_segments(s)[i]),
{
    lemma_scan_pieces(s);
}

proof fn lemma_scan_plain_suffix(x: Seq<char>, w: Seq<char>)
    requires
        slash_free(w),
    ensures
        scan_path(x + w) == (scan_path(x).0, scan_path(x).1 + w),
    decreases w.len(),
{
    if w.len() == 0 {
        assert(x + w =~= x);
        assert(scan_path(x).1 + w =~= scan_path(x).1);
    } else {
        lemma_scan_plain_suffix(x, w.drop_last());
        assert((x + w).drop_last() =~= x + w.drop_last());
        assert((x + w).last() == w.last());
        assert(scan_path(x).1 + w.drop_last() + seq![w.last()] =~= scan_path(x).1 + w);
        assert((scan_path(x).1 + w.drop_last()).push(w.last()) =~= scan_path(x).1 + w);
    }
}

/// Writing non-empty segments without `/` each after a `/`, and splitting
/// the result, gives the segments back.
pub proof fn law_split_after_join(segs: Seq<Seq<char>>)
    requires
        forall|i: int| 0 <= i < segs.len() ==> #[trigger] segs[i].len() > 0 && slash_free(segs[i]),
    ensures
        path_segments(slash_join(segs)) == segs,
    decreases segs.len(),
{
    if segs.len() > 0 {
        let front = segs.drop_last();
        law_split_after_join(front);
        let x = slash_join(front).push('/');
        assert(x.drop_last() =~= slash_join(front));
        assert(scan_path(x) == (path_segments(slash_join(front)), Seq::<char>::empty()));
        assert(segs[segs.len() - 1].len() > 0);
        lemma_scan_plain_suffix(x, segs.last());
        assert(Seq::<char>::empty() + segs.last() =~= segs.last());
        assert(front.push(segs.last()) =~= segs);
    } else {
        assert(slash_join(segs) =~= Seq::<char>::empty());
    }
}

} // verus!
