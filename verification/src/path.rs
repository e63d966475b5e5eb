use vstd::prelude::*;

verus! {

/// The pieces of a path between its `/` separators, in order; empty pieces
/// stand between repeated separators and after a trailing one.
pub open spec fn path_segments(s: Seq<char>) -> Seq<Seq<char>>
    decreases s.len(),
{
    if s.len() == 0 {
        seq![Seq::empty()]
    } else {
        let prev = path_segments(s.drop_last());
        if s.last() == '/' {
            prev.push(Seq::empty())
        } else {
            prev.update(prev.len() - 1, prev.last().push(s.last()))
        }
    }
}

/// Whether a piece of a path names something: neither empty nor `.`.
pub open spec fn is_named_segment(seg: Seq<char>) -> bool {
    seg.len() > 0 && seg != seq!['.']
}

/// The components of a path, as paths are compared: whether it starts at
/// the root, whether it starts with a `.` component, and its named pieces.
/// Repeated separators, a trailing separator and `.` pieces after the start
/// do not count.
pub open spec fn path_components(s: Seq<char>) -> (bool, bool, Seq<Seq<char>>) {
    (
        s.len() > 0 && s[0] == '/',
        s.len() > 0 && s[0] == '.' && (s.len() == 1 || s[1] == '/'),
        path_segments(s).filter(|seg: Seq<char>| is_named_segment(seg)),
    )
}

/// Whether two paths name the same place: they have the same components.
pub open spec fn same_path(a: Seq<char>, b: Seq<char>) -> bool {
    path_components(a) == path_components(b)
}

proof fn lemma_segments_nonempty(s: Seq<char>)
    ensures
        path_segments(s).len() >= 1,
    decreases s.len(),
{
    if s.len() > 0 {
        lemma_segments_nonempty(s.drop_last());
    }
}

/// Splitting at one separator: the pieces of `a/b` are those of `a` followed
/// by those of `b`.
proof fn lemma_segments_concat(a: Seq<char>, b: Seq<char>)
    ensures
        path_segments(a + seq!['/'] + b) == path_segments(a) + path_segments(b),
    decreases b.len(),
{
    let sep = a + seq!['/'];
    if b.len() == 0 {
        assert(a + seq!['/'] + b =~= sep);
        assert(sep.drop_last() =~= a);
        assert(path_segments(a) + path_segments(b) =~= path_segments(a).push(Seq::<char>::empty()));
    } else {
        lemma_segments_concat(a, b.drop_last());
        lemma_segments_nonempty(b.drop_last());
        lemma_segments_nonempty(a);
        let whole = a + seq!['/'] + b;
        assert(whole.drop_last() =~= a + seq!['/'] + b.drop_last());
        assert(whole.last() == b.last());
        let pa = path_segments(a);
        let pb = path_segments(b.drop_last());
        if b.last() == '/' {
            assert(path_segments(whole) =~= pa + pb.push(Seq::<char>::empty()));
        } else {
            assert(path_segments(whole) =~= pa + pb.update(pb.len() - 1, pb.last().push(b.last())));
        }
    }
}

/// A name without separators is a single piece.
proof fn lemma_segments_of_name(x: Seq<char>)
    requires
        forall|i: int| 0 <= i < x.len() ==> x[i] != '/',
    ensures
        path_segments(x) == seq![x],
    decreases x.len(),
{
    if x.len() > 0 {
        assert forall|i: int| 0 <= i < x.drop_last().len() implies x.drop_last()[i] != '/' by {
            assert(x.drop_last()[i] == x[i]);
        }
        lemma_segments_of_name(x.drop_last());
        assert(x.drop_last().push(x.last()) =~= x);
        assert(path_segments(x) =~= seq![x]);
    } else {
        assert(x =~= Seq::<char>::empty());
    }
}

/// Whether `x` is one named piece: no separator in it, not empty, not `.`.
pub open spec fn is_single_name(x: Seq<char>) -> bool {
    &&& forall|i: int| 0 <= i < x.len() ==> x[i] != '/'
    &&& x.len() > 0
    &&& x != seq!['.']
}

/// Matching paths have the same named pieces, in the same order: a path
/// matches another only when every piece agrees, not just some of them.
pub proof fn lemma_same_path_same_pieces(a: Seq<char>, b: Seq<char>)
    requires
        same_path(a, b),
    ensures
        path_segments(a).filter(|seg: Seq<char>| is_named_segment(seg)) == path_segments(b).filter(
            |seg: Seq<char>| is_named_segment(seg),
        ),
        (a.len() > 0 && a[0] == '/') == (b.len() > 0 && b[0] == '/'),
{
}

/// Paths that differ in their first piece never match, whatever follows:
/// `x/r` and `y/r` match exactly when `x` and `y` are the same name.
pub proof fn lemma_same_path_first_piece(x: Seq<char>, y: Seq<char>, r: Seq<char>)
    requires
        is_single_name(x),
        is_single_name(y),
    ensures
        same_path(x + seq!['/'] + r, y + seq!['/'] + r) == (x == y),
{
    let keep = |seg: Seq<char>| is_named_segment(seg);
    lemma_segments_concat(x, r);
    lemma_segments_concat(y, r);
    lemma_segments_of_name(x);
    lemma_segments_of_name(y);
    let rest = path_segments(r);
    rest.lemma_filter_prepend(x, keep);
    rest.lemma_filter_prepend(y, keep);
    let a = x + seq!['/'] + r;
    let b = y + seq!['/'] + r;
    assert(a[0] == x[0]);
    assert(b[0] == y[0]);
    if x.len() == 1 && x[0] == '.' {
        assert(x =~= seq!['.']);
    }
    if y.len() == 1 && y[0] == '.' {
        assert(y =~= seq!['.']);
    }
    if x.len() > 1 {
        assert(a[1] == x[1]);
    }
    if y.len() > 1 {
        assert(b[1] == y[1]);
    }
    assert(path_segments(a).filter(keep) == seq![x] + rest.filter(keep));
    assert(path_segments(b).filter(keep) == seq![y] + rest.filter(keep));
    if same_path(a, b) {
        assert((seq![x] + rest.filter(keep))[0] == x);
        assert((seq![y] + rest.filter(keep))[0] == y);
    }
}

/// A leading `.` component counts, and so does the root: `./x` and `/x`
/// each name something else than `x`.
pub proof fn lemma_same_path_leading_dot_and_root(x: Seq<char>)
    requires
        is_single_name(x),
    ensures
        !same_path(seq!['.', '/'] + x, x),
        !same_path(seq!['/'] + x, x),
{
    let d = seq!['.', '/'] + x;
    let r = seq!['/'] + x;
    assert(d[0] == '.' && d[1] == '/');
    assert(r[0] == '/');
    if x.len() == 1 && x[0] == '.' {
        assert(x =~= seq!['.']);
    }
    if x.len() > 1 {
        assert(x[1] != '/');
    }
}

/// Repeated separators and a trailing separator do not change what a path
/// names: `a//b` matches `a/b`, and a non-empty `a/` matches `a`.
pub proof fn lemma_same_path_separators(a: Seq<char>, b: Seq<char>)
    ensures
        same_path(a + seq!['/', '/'] + b, a + seq!['/'] + b),
        a.len() > 0 ==> same_path(a + seq!['/'], a),
{
    let keep = |seg: Seq<char>| is_named_segment(seg);
    let sb = seq!['/'] + b;
    assert(a + seq!['/', '/'] + b =~= a + seq!['/'] + sb);
    lemma_segments_concat(a, sb);
    lemma_segments_concat(a, b);
    lemma_segments_concat(Seq::<char>::empty(), b);
    assert(Seq::<char>::empty() + seq!['/'] + b =~= sb);
    assert(path_segments(Seq::<char>::empty()) == seq![Seq::<char>::empty()]);
    path_segments(b).lemma_filter_prepend(Seq::<char>::empty(), keep);
    Seq::filter_distributes_over_add(path_segments(a), path_segments(sb), keep);
    Seq::filter_distributes_over_add(path_segments(a), path_segments(b), keep);
    assert(path_segments(sb).filter(keep) =~= path_segments(b).filter(keep));
    let l = a + seq!['/', '/'] + b;
    let m = a + seq!['/'] + b;
    if a.len() == 0 {
        assert(l[0] == '/' && m[0] == '/');
    } else {
        assert(l[0] == a[0] && m[0] == a[0]);
        if a.len() == 1 {
            assert(l[1] == '/' && m[1] == '/');
        } else {
            assert(l[1] == a[1] && m[1] == a[1]);
        }
    }
    assert(path_components(l) == path_components(m));
    if a.len() > 0 {
        let t = a + seq!['/'];
        assert(t.drop_last() =~= a);
        assert(t.last() == '/');
        reveal(Seq::filter);
        assert(path_segments(t) == path_segments(a).push(Seq::<char>::empty()));
        assert(path_segments(t).drop_last() =~= path_segments(a));
        assert(!keep(Seq::<char>::empty()));
        assert(path_segments(t).filter(keep) == path_segments(a).filter(keep));
        assert(t[0] == a[0]);
        if a.len() == 1 {
            assert(t[1] == '/');
        } else {
            assert(t[1] == a[1]);
        }
        assert(path_components(t) == path_components(a));
    }
}

/// The views of a list of path pieces.
pub open spec fn segments_view(v: Seq<Vec<char>>) -> Seq<Seq<char>> {
    v.map_values(|x: Vec<char>| x@)
}

fn chars_of_string(s: &String) -> (v: Vec<char>)
    ensures
        v@ == s@,
{
    let t = s.as_str();
    let n = t.unicode_len();
    let mut v: Vec<char> = Vec::new();
    let mut i: usize = 0;
    while i < n
        invariant
            n == t@.len(),
            t@ == s@,
            i <= n,
            v@ == t@.take(i as int),
        decreases n - i,
    {
        v.push(t.get_char(i));
        i = i + 1;
        assert(v@ =~= t@.take(i as int));
    }
    assert(t@.take(n as int) =~= t@);
    v
}

fn named(seg: &Vec<char>) -> (b: bool)
    ensures
        b == is_named_segment(seg@),
{
    if seg.len() == 1 && seg[0] == '.' {
        assert(seg@ =~= seq!['.']);
        false
    } else {
        proof {
            if seg@ == seq!['.'] {
                assert(seg@[0] == '.');
            }
        }
        seg.len() > 0
    }
}

fn components_of(p: &String) -> (res: (bool, bool, Vec<Vec<char>>))
    ensures
        (res.0, res.1, segments_view(res.2@)) == path_components(p@),
{
    let s = chars_of_string(p);
    let n = s.len();
    let mut parts: Vec<Vec<char>> = Vec::new();
    let mut cur: Vec<char> = Vec::new();
    let mut i: usize = 0;
    let ghost keep = |seg: Seq<char>| is_named_segment(seg);
    proof {
        reveal(Seq::filter);
        assert(s@.take(0) =~= Seq::<char>::empty());
        assert(path_segments(s@.take(0)).drop_last() =~= Seq::<Seq<char>>::empty());
        assert(segments_view(parts@) =~= Seq::<Seq<char>>::empty());
    }
    while i < n
        invariant
            n == s@.len(),
            i <= n,
            keep == (|seg: Seq<char>| is_named_segment(seg)),
            path_segments(s@.take(i as int)).len() >= 1,
            cur@ == path_segments(s@.take(i as int)).last(),
            segments_view(parts@) == path_segments(s@.take(i as int)).drop_last().filter(keep),
        decreases n - i,
    {
        let c = s[i];
        let ghost prev = path_segments(s@.take(i as int));
        proof {
            reveal(Seq::filter);
            assert(s@.take(i + 1).drop_last() =~= s@.take(i as int));
            assert(s@.take(i + 1).last() == c);
        }
        if c == '/' {
            let is_named = named(&cur);
            let ghost before = segments_view(parts@);
            if is_named {
                let mut done = Vec::new();
                std::mem::swap(&mut done, &mut cur);
                parts.push(done);
                assert(segments_view(parts@) =~= before.push(prev.last()));
            } else {
                cur = Vec::new();
            }
            proof {
                let next = path_segments(s@.take(i + 1));
                assert(next == prev.push(Seq::<char>::empty()));
                assert(next.drop_last() =~= prev);
                assert(prev =~= prev.drop_last().push(prev.last()));
                assert(prev.filter(keep) == prev.drop_last().filter(keep) + (if keep(prev.last()) {
                    seq![prev.last()]
                } else {
                    Seq::<Seq<char>>::empty()
                })) by {
                    assert(prev.drop_last().push(prev.last()).drop_last() =~= prev.drop_last());
                }
                assert(segments_view(parts@) =~= next.drop_last().filter(keep));
                assert(cur@ =~= next.last());
            }
        } else {
            cur.push(c);
            proof {
                let next = path_segments(s@.take(i + 1));
                assert(next == prev.update(prev.len() - 1, prev.last().push(c)));
                assert(next.drop_last() =~= prev.drop_last());
                assert(cur@ =~= next.last());
            }
        }
        i = i + 1;
    }
    proof {
        reveal(Seq::filter);
        assert(s@.take(n as int) =~= s@);
    }
    let ghost segs = path_segments(s@);
    let ghost before = segments_view(parts@);
    if named(&cur) {
        parts.push(cur);
        assert(segments_view(parts@) =~= before.push(segs.last()));
    }
    proof {
        reveal(Seq::filter);
        assert(segs =~= segs.drop_last().push(segs.last()));
        assert(segs.filter(keep) == segs.drop_last().filter(keep) + (if keep(segs.last()) {
            seq![segs.last()]
        } else {
            Seq::<Seq<char>>::empty()
        })) by {
            assert(segs.drop_last().push(segs.last()).drop_last() =~= segs.drop_last());
        }
        assert(segments_view(parts@) =~= segs.filter(keep));
    }
    let root = n > 0 && s[0] == '/';
    let dot = n > 0 && s[0] == '.' && (n == 1 || s[1] == '/');
    (root, dot, parts)
}

fn chars_equal(a: &Vec<char>, b: &Vec<char>) -> (eq: bool)
    ensures
        eq == (a@ == b@),
{
    if a.len() != b.len() {
        return false;
    }
    let n = a.len();
    let mut i: usize = 0;
    while i < n
        invariant
            n == a@.len(),
            n == b@.len(),
            i <= n,
            forall|j: int| 0 <= j < i ==> a@[j] == b@[j],
        decreases n - i,
    {
        if a[i] != b[i] {
            return false;
        }
        i = i + 1;
    }
    assert(a@ =~= b@);
    true
}

/// Whether two paths name the same place, comparing them component by
/// component (see `same_path`).
pub fn paths_match(a: &String, b: &String) -> (eq: bool)
    ensures
        eq == same_path(a@, b@),
{
    let (ra, da, pa) = components_of(a);
    let (rb, db, pb) = components_of(b);
    if ra != rb || da != db || pa.len() != pb.len() {
        proof {
            if pa.len() != pb.len() {
                assert(segments_view(pa@).len() != segments_view(pb@).len());
            }
        }
        return false;
    }
    let n = pa.len();
    let mut i: usize = 0;
    while i < n
        invariant
            n == pa@.len(),
            n == pb@.len(),
            i <= n,
            forall|j: int| 0 <= j < i ==> pa@[j]@ == pb@[j]@,
            segments_view(pa@) == path_components(a@).2,
            segments_view(pb@) == path_components(b@).2,
        decreases n - i,
    {
        if !chars_equal(&pa[i], &pb[i]) {
            proof {
                assert(segments_view(pa@)[i as int] != segments_view(pb@)[i as int]);
            }
            return false;
        }
        i = i + 1;
    }
    assert(segments_view(pa@) =~= segments_view(pb@));
    true
}

} // verus!
