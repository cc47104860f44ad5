//! The mathematical model of the graphs the generators print: edge lists over
//! 1-indexed vertices, walks, connectivity and trees.

use vstd::prelude::*;

verus! {

/// Some edge of `edges` joins `a` and `b`, in either direction.
pub open spec fn adjacent(edges: Seq<(u32, u32)>, a: u32, b: u32) -> bool {
    exists|i: int| 0 <= i < edges.len() && (edges[i] == (a, b) || edges[i] == (b, a))
}

/// Consecutive vertices `i` and `i + 1` of `w` are adjacent.
pub open spec fn walk_step(edges: Seq<(u32, u32)>, w: Seq<u32>, i: int) -> bool {
    adjacent(edges, w[i], w[i + 1])
}

/// `w` is a non-empty walk along the edges of `edges`.
pub open spec fn is_walk(edges: Seq<(u32, u32)>, w: Seq<u32>) -> bool {
    &&& w.len() >= 1
    &&& forall|i: int| 0 <= i < w.len() - 1 ==> #[trigger] walk_step(edges, w, i)
}

/// A walk leads from `a` to `b`.
pub open spec fn reachable(edges: Seq<(u32, u32)>, a: u32, b: u32) -> bool {
    exists|w: Seq<u32>| #[trigger] is_walk(edges, w) && w[0] == a && w.last() == b
}

/// Every two of the vertices `1..=n` are joined by a walk.
pub open spec fn connected(n: nat, edges: Seq<(u32, u32)>) -> bool {
    forall|a: u32, b: u32| 1 <= a <= n && 1 <= b <= n ==> #[trigger] reachable(edges, a, b)
}

/// Every edge joins two distinct vertices of `1..=n`.
pub open spec fn simple_edges_within(n: nat, edges: Seq<(u32, u32)>) -> bool {
    forall|i: int|
        0 <= i < edges.len() ==> {
            let e = #[trigger] edges[i];
            &&& 1 <= e.0 <= n
            &&& 1 <= e.1 <= n
            &&& e.0 != e.1
        }
}

/// No two edges join the same two vertices, in either direction.
pub open spec fn no_repeated_edge(edges: Seq<(u32, u32)>) -> bool {
    forall|p: int, q: int|
        0 <= p < q < edges.len() ==> #[trigger] edges[p] != #[trigger] edges[q] && edges[p] != (edges[q].1, edges[q].0)
}

/// `edges` is a tree on the vertices `1..=n`: `n - 1` edges without loops that
/// connect all of them.
pub open spec fn is_tree(n: nat, edges: Seq<(u32, u32)>) -> bool {
    &&& n >= 1
    &&& edges.len() + 1 == n
    &&& simple_edges_within(n, edges)
    &&& connected(n, edges)
}

/// An edge stays an edge when more edges are added.
pub proof fn lemma_adjacent_push(edges: Seq<(u32, u32)>, e: (u32, u32), a: u32, b: u32)
    requires
        adjacent(edges, a, b),
    ensures
        adjacent(edges.push(e), a, b),
{
    let i = choose|i: int| 0 <= i < edges.len() && (edges[i] == (a, b) || edges[i] == (b, a));
    assert(edges.push(e)[i] == edges[i]);
}

/// The last edge of a list is one of its edges.
pub proof fn lemma_adjacent_last(edges: Seq<(u32, u32)>, a: u32, b: u32)
    ensures
        adjacent(edges.push((a, b)), a, b),
        adjacent(edges.push((a, b)), b, a),
{
    assert(edges.push((a, b))[edges.len() as int] == (a, b));
}

/// A walk stays a walk when more edges are added.
pub proof fn lemma_walk_push_edge(edges: Seq<(u32, u32)>, e: (u32, u32), w: Seq<u32>)
    requires
        is_walk(edges, w),
    ensures
        is_walk(edges.push(e), w),
{
    assert forall|i: int| 0 <= i < w.len() - 1 implies #[trigger] walk_step(edges.push(e), w, i) by {
        assert(walk_step(edges, w, i));
        lemma_adjacent_push(edges, e, w[i], w[i + 1]);
    }
}

/// A walk followed by an adjacent vertex is a walk.
pub proof fn lemma_walk_extend(edges: Seq<(u32, u32)>, w: Seq<u32>, v: u32)
    requires
        is_walk(edges, w),
        adjacent(edges, w.last(), v),
    ensures
        is_walk(edges, w.push(v)),
        w.push(v)[0] == w[0],
        w.push(v).last() == v,
{
    let w2 = w.push(v);
    assert forall|i: int| 0 <= i < w2.len() - 1 implies #[trigger] walk_step(edges, w2, i) by {
        if i < w.len() - 1 {
            assert(walk_step(edges, w, i));
        }
    }
}

/// Adjacency does not depend on the direction.
pub proof fn lemma_adjacent_symmetric(edges: Seq<(u32, u32)>, a: u32, b: u32)
    requires
        adjacent(edges, a, b),
    ensures
        adjacent(edges, b, a),
{
    let i = choose|i: int| 0 <= i < edges.len() && (edges[i] == (a, b) || edges[i] == (b, a));
    assert(0 <= i < edges.len() && (edges[i] == (b, a) || edges[i] == (a, b)));
}

/// A walk read backwards is a walk.
pub proof fn lemma_walk_reverse(edges: Seq<(u32, u32)>, w: Seq<u32>)
    requires
        is_walk(edges, w),
    ensures
        is_walk(edges, w.reverse()),
        w.reverse()[0] == w.last(),
        w.reverse().last() == w[0],
{
    let r = w.reverse();
    assert forall|i: int| 0 <= i < r.len() - 1 implies #[trigger] walk_step(edges, r, i) by {
        let j = w.len() - 2 - i;
        assert(walk_step(edges, w, j));
        assert(r[i] == w[j + 1]);
        assert(r[i + 1] == w[j]);
        lemma_adjacent_symmetric(edges, w[j], w[j + 1]);
    }
}

/// Two walks that meet at a vertex join into one walk.
pub proof fn lemma_walk_concat(edges: Seq<(u32, u32)>, w1: Seq<u32>, w2: Seq<u32>)
    requires
        is_walk(edges, w1),
        is_walk(edges, w2),
        w1.last() == w2[0],
    ensures
        is_walk(edges, w1 + w2.drop_first()),
        (w1 + w2.drop_first())[0] == w1[0],
        (w1 + w2.drop_first()).last() == w2.last(),
{
    let w = w1 + w2.drop_first();
    assert forall|i: int| 0 <= i < w.len() - 1 implies #[trigger] walk_step(edges, w, i) by {
        if i < w1.len() - 1 {
            assert(walk_step(edges, w1, i));
        } else {
            let j = i - (w1.len() - 1);
            assert(walk_step(edges, w2, j));
            assert(w[i] == w2[j]);
            assert(w[i + 1] == w2[j + 1]);
        }
    }
    if w2.len() > 1 {
        assert(w.last() == w2.last());
    }
}

/// If every vertex of `1..=n` has a walk to one hub vertex, the graph is connected.
pub proof fn lemma_connected_via_hub(n: nat, edges: Seq<(u32, u32)>, hub: u32, walks: Seq<Seq<u32>>)
    requires
        walks.len() == n,
        forall|j: int|
            0 <= j < n ==> {
                let w = #[trigger] walks[j];
                &&& is_walk(edges, w)
                &&& w[0] == j + 1
                &&& w.last() == hub
            },
    ensures
        connected(n, edges),
{
    assert forall|a: u32, b: u32| 1 <= a <= n && 1 <= b <= n implies #[trigger] reachable(edges, a, b) by {
        let wa = walks[a - 1];
        let wb = walks[b - 1];
        lemma_walk_reverse(edges, wb);
        lemma_walk_concat(edges, wa, wb.reverse());
        let w = wa + wb.reverse().drop_first();
        assert(is_walk(edges, w) && w[0] == a && w.last() == b);
    }
}

/// Adding edges keeps every walk a walk, so a connected graph stays connected.
pub proof fn lemma_connected_append(n: nat, edges: Seq<(u32, u32)>, more: Seq<(u32, u32)>)
    requires
        connected(n, edges),
    ensures
        connected(n, edges + more),
{
    let all = edges + more;
    assert forall|a: u32, b: u32| 1 <= a <= n && 1 <= b <= n implies #[trigger] reachable(all, a, b) by {
        assert(reachable(edges, a, b));
        let w = choose|w: Seq<u32>| #[trigger] is_walk(edges, w) && w[0] == a && w.last() == b;
        assert forall|i: int| 0 <= i < w.len() - 1 implies #[trigger] walk_step(all, w, i) by {
            assert(walk_step(edges, w, i));
            let k = choose|k: int|
                0 <= k < edges.len() && (edges[k] == (w[i], w[i + 1]) || edges[k] == (w[i + 1], w[i]));
            assert(all[k] == edges[k]);
        }
        assert(is_walk(all, w));
    }
}

/// Rearranging a sequence keeps its length, its members and its lack of repeats.
pub proof fn lemma_rearranged<A>(s: Seq<A>, t: Seq<A>)
    requires
        t.to_multiset() == s.to_multiset(),
    ensures
        t.len() == s.len(),
        forall|x: A| t.contains(x) <==> s.contains(x),
        s.no_duplicates() ==> t.no_duplicates(),
{
    s.to_multiset_ensures();
    t.to_multiset_ensures();
    assert forall|x: A| t.contains(x) <==> s.contains(x) by {
        vstd::seq_lib::to_multiset_contains(t, x);
        vstd::seq_lib::to_multiset_contains(s, x);
    }
    if s.no_duplicates() {
        s.lemma_multiset_has_no_duplicates();
        t.lemma_multiset_has_no_duplicates_conv();
    }
}

/// A prefix keeps the lack of repeats, and its members are members of the whole.
pub proof fn lemma_prefix<A>(s: Seq<A>, m: int)
    requires
        0 <= m <= s.len(),
    ensures
        s.no_duplicates() ==> s.take(m).no_duplicates(),
        forall|x: A| s.take(m).contains(x) ==> s.contains(x),
{
    assert forall|x: A| s.take(m).contains(x) implies s.contains(x) by {
        let i = choose|i: int| 0 <= i < s.take(m).len() && s.take(m)[i] == x;
        assert(s[i] == x);
    }
}

} // verus!
