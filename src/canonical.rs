//! Canonical paths: slash-joined sequences of non-empty module segments.

use vstd::prelude::*;

verus! {

/// A path segment: non-empty and free of separators.
pub open spec fn is_segment(s: Seq<char>) -> bool {
    &&& s.len() > 0
    &&& forall|i: int| 0 <= i < s.len() ==> s[i] != '/'
}

/// A canonical path: non-empty, with no leading, trailing or doubled separator.
pub open spec fn is_canonical(p: Seq<char>) -> bool {
    &&& p.len() > 0
    &&& p[0] != '/'
    &&& p[p.len() - 1] != '/'
    &&& forall|i: int| 0 <= i < p.len() - 1 && #[trigger] p[i] == '/' ==> p[i + 1] != '/'
}

/// `q` is `p` itself or the path of a module that `p` lies under.
pub open spec fn is_path_prefix(q: Seq<char>, p: Seq<char>) -> bool {
    &&& q.len() > 0
    &&& q.len() <= p.len()
    &&& p.subrange(0, q.len() as int) == q
    &&& (q.len() == p.len() || p[q.len() as int] == '/')
}

/// Every non-empty path prefix of `p`, `p` included.
pub open spec fn path_prefixes(p: Seq<char>) -> Set<Seq<char>> {
    Set::new(|q: Seq<char>| is_path_prefix(q, p))
}

/// Segments joined with `/`.
pub open spec fn join_segments(segs: Seq<Seq<char>>) -> Seq<char>
    decreases segs.len(),
{
    if segs.len() == 0 {
        Seq::empty()
    } else if segs.len() == 1 {
        segs[0]
    } else {
        join_segments(segs.drop_last()) + seq!['/'] + segs.last()
    }
}

/// All of `segs` are segments.
pub open spec fn all_segments(segs: Seq<Seq<char>>) -> bool {
    forall|i: int| 0 <= i < segs.len() ==> is_segment(#[trigger] segs[i])
}

/// The path prefix relation is transitive.
pub proof fn lemma_prefix_transitive(a: Seq<char>, b: Seq<char>, c: Seq<char>)
    requires
        is_path_prefix(a, b),
        is_path_prefix(b, c),
    ensures
        is_path_prefix(a, c),
{
    assert(c.subrange(0, a.len() as int) =~= b.subrange(0, a.len() as int));
    if a.len() < b.len() {
        assert(c[a.len() as int] == b[a.len() as int]);
    }
}

/// A canonical path is a path prefix of itself.
pub proof fn lemma_prefix_reflexive(p: Seq<char>)
    requires
        p.len() > 0,
    ensures
        is_path_prefix(p, p),
        path_prefixes(p).contains(p),
{
    assert(p.subrange(0, p.len() as int) =~= p);
}

/// A path prefix of a canonical path is canonical.
pub proof fn lemma_prefix_canonical(q: Seq<char>, p: Seq<char>)
    requires
        is_canonical(p),
        is_path_prefix(q, p),
    ensures
        is_canonical(q),
{
    assert forall|i: int| 0 <= i < q.len() implies q[i] == p[i] by {
        if 0 <= i < q.len() {
            assert(q[i] == p.subrange(0, q.len() as int)[i]);
        }
    }
    if q.len() < p.len() {
        assert(p[q.len() - 1] != '/');
    }
}

/// The path prefixes of `p` are `p` cut at a separator or at its end.
pub proof fn lemma_prefix_at(p: Seq<char>, j: int)
    requires
        1 <= j <= p.len(),
        j == p.len() || p[j] == '/',
    ensures
        is_path_prefix(p.subrange(0, j), p),
{
}

/// Joining at least one segment gives a canonical path, and joining the first
/// `k` of them gives one of its path prefixes.
pub proof fn lemma_join_prefixes(segs: Seq<Seq<char>>, k: int)
    requires
        all_segments(segs),
        1 <= k <= segs.len(),
    ensures
        is_canonical(join_segments(segs)),
        is_path_prefix(join_segments(segs.subrange(0, k)), join_segments(segs)),
    decreases segs.len(),
{
    let n = segs.len();
    let full = join_segments(segs);
    lemma_join_canonical(segs);
    if k == n {
        assert(segs.subrange(0, k) =~= segs);
        lemma_prefix_reflexive(full);
    } else {
        let init = segs.drop_last();
        assert(all_segments(init)) by {
            assert forall|i: int| 0 <= i < init.len() implies is_segment(#[trigger] init[i]) by {
                assert(init[i] == segs[i]);
            }
        }
        lemma_join_prefixes(init, k);
        assert(init.subrange(0, k) =~= segs.subrange(0, k));
        let head = join_segments(init);
        assert(full == head + seq!['/'] + segs.last());
        assert(is_path_prefix(head, full)) by {
            assert(full.subrange(0, head.len() as int) =~= head);
            assert(full[head.len() as int] == '/');
        }
        lemma_prefix_transitive(join_segments(segs.subrange(0, k)), head, full);
    }
}

proof fn lemma_join_canonical(segs: Seq<Seq<char>>)
    requires
        all_segments(segs),
        segs.len() >= 1,
    ensures
        is_canonical(join_segments(segs)),
    decreases segs.len(),
{
    let n = segs.len();
    assert(is_segment(segs[n - 1]));
    if n == 1 {
        assert(is_segment(segs[0]));
    } else {
        let init = segs.drop_last();
        assert(all_segments(init)) by {
            assert forall|i: int| 0 <= i < init.len() implies is_segment(#[trigger] init[i]) by {
                assert(init[i] == segs[i]);
            }
        }
        lemma_join_canonical(init);
        let head = join_segments(init);
        let last = segs.last();
        let full = head + seq!['/'] + last;
        assert(join_segments(segs) == full);
        assert forall|i: int| 0 <= i < full.len() - 1 && #[trigger] full[i] == '/' implies full[i + 1] != '/' by {
            if i < head.len() - 1 {
                assert(full[i] == head[i]);
                assert(full[i + 1] == head[i + 1]);
            } else if i == head.len() - 1 {
                assert(full[i] == head[i]);
            } else if i == head.len() {
                assert(full[i + 1] == last[0]);
            } else {
                assert(full[i] == last[i - head.len() - 1]);
            }
        }
        assert(full[0] == head[0]);
        assert(full[full.len() - 1] == last[last.len() - 1]);
    }
}

} // verus!
