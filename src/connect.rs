//! Connectivity in a graph given by a link predicate, and what it means for
//! a disjoint-set forest to record exactly its connected components.
use vstd::prelude::*;

verus! {

/// `u` and `v` are joined by a link, in either direction.
pub open spec fn linked(l: spec_fn(int, int) -> bool, u: int, v: int) -> bool {
    l(u, v) || l(v, u)
}

/// `p` walks from `a` to `b` over nodes `0..n`, each step along a link.
pub open spec fn is_path(l: spec_fn(int, int) -> bool, n: int, p: Seq<int>, a: int, b: int) -> bool {
    &&& p.len() >= 1
    &&& p[0] == a
    &&& p[p.len() - 1] == b
    &&& forall|i: int| 0 <= i < p.len() ==> 0 <= #[trigger] p[i] < n
    &&& forall|i: int| 0 <= i < p.len() - 1 ==> linked(l, #[trigger] p[i], p[i + 1])
}

pub open spec fn connected(l: spec_fn(int, int) -> bool, n: int, a: int, b: int) -> bool {
    exists|p: Seq<int>| is_path(l, n, p, a, b)
}

/// The roots that `find` gives for nodes `0..n` name exactly the connected
/// components of the graph: two nodes share a root iff a path joins them.
pub open spec fn represents(roots: Seq<int>, n: int, l: spec_fn(int, int) -> bool) -> bool {
    &&& roots.len() == n
    &&& forall|i: int| 0 <= i < n ==> 0 <= #[trigger] roots[i] < n && roots[roots[i]] == roots[i]
    &&& forall|a: int, b: int|
        0 <= a < n && 0 <= b < n ==> (#[trigger] roots[a] == #[trigger] roots[b] <==> connected(
            l,
            n,
            a,
            b,
        ))
}

/// The links of `l` together with the one link from `a` to `b`.
pub open spec fn with_link(l: spec_fn(int, int) -> bool, a: int, b: int) -> spec_fn(int, int) -> bool {
    |u: int, v: int| l(u, v) || (u == a && v == b)
}

/// No links at all.
pub open spec fn no_links() -> spec_fn(int, int) -> bool {
    |u: int, v: int| false
}

pub proof fn lemma_single_link(l: spec_fn(int, int) -> bool, n: int, u: int, v: int)
    requires
        0 <= u < n,
        0 <= v < n,
        linked(l, u, v),
    ensures
        connected(l, n, u, v),
{
    let p = seq![u, v];
    assert(is_path(l, n, p, u, v));
}

pub proof fn lemma_path_reflexive(l: spec_fn(int, int) -> bool, n: int, u: int)
    requires
        0 <= u < n,
    ensures
        connected(l, n, u, u),
{
    let p = seq![u];
    assert(is_path(l, n, p, u, u));
}

/// A path over links of `l` is a path over any graph that has those links.
pub proof fn lemma_path_widen(
    l: spec_fn(int, int) -> bool,
    m: spec_fn(int, int) -> bool,
    n: int,
    a: int,
    b: int,
)
    requires
        connected(l, n, a, b),
        forall|u: int, v: int| 0 <= u < n && 0 <= v < n && #[trigger] linked(l, u, v) ==> linked(m, u, v),
    ensures
        connected(m, n, a, b),
{
    let p = choose|p: Seq<int>| is_path(l, n, p, a, b);
    assert forall|i: int| 0 <= i < p.len() - 1 implies linked(m, #[trigger] p[i], p[i + 1]) by {
        assert(linked(l, p[i], p[i + 1]));
    }
    assert(is_path(m, n, p, a, b));
}

pub proof fn lemma_path_join(l: spec_fn(int, int) -> bool, n: int, a: int, b: int, c: int)
    requires
        connected(l, n, a, b),
        connected(l, n, b, c),
    ensures
        connected(l, n, a, c),
{
    let p = choose|p: Seq<int>| is_path(l, n, p, a, b);
    let q = choose|q: Seq<int>| is_path(l, n, q, b, c);
    let r = p + q.drop_first();
    assert forall|i: int| 0 <= i < r.len() implies 0 <= #[trigger] r[i] < n by {
        if i >= p.len() {
            assert(r[i] == q[i - p.len() + 1]);
        }
    }
    assert forall|i: int| 0 <= i < r.len() - 1 implies linked(l, #[trigger] r[i], r[i + 1]) by {
        if i < p.len() - 1 {
            assert(r[i] == p[i] && r[i + 1] == p[i + 1]);
        } else if i == p.len() - 1 {
            assert(r[i] == b && r[i + 1] == q[1]);
            assert(linked(l, q[0], q[1]));
        } else {
            assert(r[i] == q[i - p.len() + 1] && r[i + 1] == q[i - p.len() + 2]);
            assert(linked(l, q[i - p.len() + 1], q[i - p.len() + 2]));
        }
    }
    if q.len() == 1 {
        assert(r =~= p);
    } else {
        assert(r[r.len() - 1] == q[q.len() - 1]);
    }
    assert(is_path(l, n, r, a, c));
}

pub proof fn lemma_path_reverse(l: spec_fn(int, int) -> bool, n: int, a: int, b: int)
    requires
        connected(l, n, a, b),
    ensures
        connected(l, n, b, a),
{
    let p = choose|p: Seq<int>| is_path(l, n, p, a, b);
    let r = p.reverse();
    assert forall|i: int| 0 <= i < r.len() implies 0 <= #[trigger] r[i] < n by {
        assert(r[i] == p[p.len() - 1 - i]);
    }
    assert forall|i: int| 0 <= i < r.len() - 1 implies linked(l, #[trigger] r[i], r[i + 1]) by {
        let j = p.len() - 2 - i;
        assert(r[i] == p[j + 1] && r[i + 1] == p[j]);
        assert(linked(l, p[j], p[j + 1]));
    }
    assert(is_path(l, n, r, b, a));
}

/// Along a path, a labelling that agrees across every link is constant.
proof fn lemma_path_constant(f: Seq<int>, l: spec_fn(int, int) -> bool, n: int, p: Seq<int>, a: int, b: int)
    requires
        is_path(l, n, p, a, b),
        f.len() == n,
        forall|u: int, v: int| 0 <= u < n && 0 <= v < n && #[trigger] linked(l, u, v) ==> f[u] == f[v],
    ensures
        f[a] == f[b],
    decreases p.len(),
{
    if p.len() > 1 {
        let q = p.drop_last();
        let c = p[p.len() - 2];
        assert forall|i: int| 0 <= i < q.len() - 1 implies linked(l, #[trigger] q[i], q[i + 1]) by {
            assert(q[i] == p[i] && q[i + 1] == p[i + 1]);
        }
        assert(is_path(l, n, q, a, c));
        lemma_path_constant(f, l, n, q, a, c);
        assert(linked(l, p[p.len() - 2], p[p.len() - 1]));
    }
}

/// A fresh forest records a graph without links.
pub proof fn lemma_fresh(roots: Seq<int>, n: int)
    requires
        roots.len() == n,
        forall|i: int| 0 <= i < n ==> #[trigger] roots[i] == i,
    ensures
        represents(roots, n, no_links()),
{
    assert forall|a: int, b: int| 0 <= a < n && 0 <= b < n implies (#[trigger] roots[a]
        == #[trigger] roots[b] <==> connected(no_links(), n, a, b)) by {
        if a == b {
            lemma_path_reflexive(no_links(), n, a);
        }
        if connected(no_links(), n, a, b) {
            let p = choose|p: Seq<int>| is_path(no_links(), n, p, a, b);
            if p.len() > 1 {
                assert(linked(no_links(), p[0], p[1]));
            }
        }
    }
}

/// Two graphs whose links agree have the same components.
pub proof fn lemma_same_links(roots: Seq<int>, n: int, l: spec_fn(int, int) -> bool, m: spec_fn(int, int) -> bool)
    requires
        represents(roots, n, l),
        forall|u: int, v: int| 0 <= u < n && 0 <= v < n ==> #[trigger] linked(l, u, v) == linked(m, u, v),
    ensures
        represents(roots, n, m),
{
    assert forall|a: int, b: int| 0 <= a < n && 0 <= b < n implies (#[trigger] roots[a]
        == #[trigger] roots[b] <==> connected(m, n, a, b)) by {
        if connected(l, n, a, b) {
            lemma_path_widen(l, m, n, a, b);
        }
        if connected(m, n, a, b) {
            lemma_path_widen(m, l, n, a, b);
        }
    }
}

/// Joining the sets of `a` and `b`, as `union` does, records the graph with
/// the link from `a` to `b` added.
pub proof fn lemma_union(old_roots: Seq<int>, new_roots: Seq<int>, n: int, l: spec_fn(int, int) -> bool, a: int, b: int)
    requires
        represents(old_roots, n, l),
        0 <= a < n,
        0 <= b < n,
        new_roots.len() == n,
        new_roots[a] == old_roots[a] || new_roots[a] == old_roots[b],
        forall|i: int|
            0 <= i < n ==> #[trigger] new_roots[i] == if old_roots[i] == old_roots[a] || old_roots[i]
                == old_roots[b] {
                new_roots[a]
            } else {
                old_roots[i]
            },
    ensures
        represents(new_roots, n, with_link(l, a, b)),
{
    let m = with_link(l, a, b);
    let ra = old_roots[a];
    let rb = old_roots[b];
    let w = new_roots[a];
    assert forall|i: int| 0 <= i < n implies 0 <= #[trigger] new_roots[i] < n && new_roots[new_roots[i]]
        == new_roots[i] by {
        let r = old_roots[i];
        assert(old_roots[r] == r);
        assert(old_roots[ra] == ra);
        assert(old_roots[rb] == rb);
        assert(new_roots[w] == w);
    }
    assert forall|u: int, v: int| 0 <= u < n && 0 <= v < n && #[trigger] linked(l, u, v) implies linked(
        m,
        u,
        v,
    ) by {}
    assert forall|u: int, v: int| 0 <= u < n && 0 <= v < n && #[trigger] linked(m, u, v) implies new_roots[u]
        == new_roots[v] by {
        if linked(l, u, v) {
            lemma_single_link(l, n, u, v);
            assert(old_roots[u] == old_roots[v]);
        } else {
            assert(new_roots[b] == w);
        }
    }
    assert forall|x: int, y: int| 0 <= x < n && 0 <= y < n implies (#[trigger] new_roots[x]
        == #[trigger] new_roots[y] <==> connected(m, n, x, y)) by {
        if connected(m, n, x, y) {
            let p = choose|p: Seq<int>| is_path(m, n, p, x, y);
            lemma_path_constant(new_roots, m, n, p, x, y);
        }
        if new_roots[x] == new_roots[y] {
            let mx = old_roots[x] == ra || old_roots[x] == rb;
            let my = old_roots[y] == ra || old_roots[y] == rb;
            if old_roots[x] == old_roots[y] {
                lemma_path_widen(l, m, n, x, y);
            } else if mx && my {
                lemma_single_link(m, n, a, b);
                if old_roots[x] == ra {
                    lemma_path_widen(l, m, n, x, a);
                    lemma_path_widen(l, m, n, b, y);
                    lemma_path_join(m, n, x, a, b);
                    lemma_path_join(m, n, x, b, y);
                } else {
                    lemma_path_widen(l, m, n, x, b);
                    lemma_path_widen(l, m, n, a, y);
                    lemma_path_reverse(m, n, a, b);
                    lemma_path_join(m, n, x, b, a);
                    lemma_path_join(m, n, x, a, y);
                }
            } else {
                let rx = old_roots[x];
                let ry = old_roots[y];
                assert(old_roots[rx] == rx && old_roots[ry] == ry);
                assert(old_roots[ra] == ra && old_roots[rb] == rb);
                assert(false);
            }
        }
    }
}

/// A path between two different nodes ends with a link into its end from a
/// node that the start reaches.
pub proof fn lemma_last_step(l: spec_fn(int, int) -> bool, n: int, a: int, b: int)
    requires
        connected(l, n, a, b),
        a != b,
    ensures
        exists|u: int| 0 <= u < n && #[trigger] connected(l, n, a, u) && linked(l, u, b),
{
    let p = choose|p: Seq<int>| is_path(l, n, p, a, b);
    assert(p.len() >= 2);
    let q = p.drop_last();
    let u = p[p.len() - 2];
    assert forall|i: int| 0 <= i < q.len() - 1 implies linked(l, #[trigger] q[i], q[i + 1]) by {
        assert(q[i] == p[i] && q[i + 1] == p[i + 1]);
    }
    assert(is_path(l, n, q, a, u));
    assert(connected(l, n, a, u));
    assert(linked(l, p[p.len() - 2], p[p.len() - 1]));
    assert(0 <= u < n);
}

} // verus!
