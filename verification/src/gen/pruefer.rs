//! Decoding of Prüfer sequences into labelled trees.

use vstd::prelude::*;
use vstd::set_lib::lemma_len_subset;

use super::graph_model::{
    adjacent, is_tree, is_walk, no_repeated_edge, lemma_adjacent_last, lemma_connected_via_hub, lemma_walk_extend, lemma_walk_push_edge,
    simple_edges_within,
};

verus! {

/// How often `x` occurs in `s`.
pub open spec fn occ(s: Seq<u32>, x: u32) -> nat
    decreases s.len(),
{
    if s.len() == 0 {
        0
    } else {
        occ(s.drop_last(), x) + if s.last() == x {
            1nat
        } else {
            0nat
        }
    }
}

/// The vertices `1..=n`.
pub open spec fn vertex_set(n: nat) -> Set<u32> {
    Set::new(|x: u32| 1 <= x <= n)
}

/// `x` is a leaf once the code has been read up to `rest`: it is still present
/// and the rest of the code does not name it.
pub open spec fn free_leaf(alive: Set<u32>, rest: Seq<u32>, x: u32) -> bool {
    alive.contains(x) && !rest.contains(x)
}

/// The smallest such leaf.
pub open spec fn smallest_free_leaf(alive: Set<u32>, rest: Seq<u32>) -> u32 {
    choose|x: u32| free_leaf(alive, rest, x) && forall|y: u32| y < x ==> !free_leaf(alive, rest, y)
}

/// The edges that decoding produces from position `t` of `code` on, with the
/// vertices `alive` still present: each step joins the smallest leaf to the next
/// code entry and removes the leaf; the last two vertices are joined at the end.
pub open spec fn decode_from(code: Seq<u32>, t: nat, alive: Set<u32>) -> Seq<(u32, u32)>
    decreases code.len() - t,
{
    if t < code.len() {
        let leaf = smallest_free_leaf(alive, code.subrange(t as int, code.len() as int));
        seq![(leaf, code[t as int])] + decode_from(code, t + 1, alive.remove(leaf))
    } else {
        let a = smallest_free_leaf(alive, Seq::empty());
        let b = smallest_free_leaf(alive.remove(a), Seq::empty());
        seq![(a, b)]
    }
}

/// The tree whose Prüfer code is `code`, on the vertices `1..=code.len() + 2`.
pub open spec fn pruefer_tree(code: Seq<u32>) -> Seq<(u32, u32)> {
    decode_from(code, 0, vertex_set(code.len() + 2))
}

/// A valid Prüfer code: every entry names a vertex of `1..=code.len() + 2`.
pub open spec fn valid_code(code: Seq<u32>) -> bool {
    forall|i: int| 0 <= i < code.len() ==> 1 <= #[trigger] code[i] <= code.len() + 2
}

proof fn lemma_occ_push(s: Seq<u32>, y: u32, x: u32)
    ensures
        occ(s.push(y), x) == occ(s, x) + if y == x {
            1nat
        } else {
            0nat
        },
{
    assert(s.push(y).drop_last() =~= s);
}

proof fn lemma_occ_bound(s: Seq<u32>, x: u32)
    ensures
        occ(s, x) <= s.len(),
        occ(s, x) == 0 <==> !s.contains(x),
    decreases s.len(),
{
    if s.len() > 0 {
        lemma_occ_bound(s.drop_last(), x);
        if s.drop_last().contains(x) {
            let i = choose|i: int| 0 <= i < s.drop_last().len() && s.drop_last()[i] == x;
            assert(s[i] == x);
        }
        if s.contains(x) && s.last() != x {
            let i = choose|i: int| 0 <= i < s.len() && s[i] == x;
            assert(s.drop_last()[i] == x);
        }
    }
}

proof fn lemma_occ_first(s: Seq<u32>, x: u32)
    requires
        s.len() > 0,
    ensures
        occ(s, x) == occ(s.drop_first(), x) + if s[0] == x {
            1nat
        } else {
            0nat
        },
    decreases s.len(),
{
    if s.len() > 1 {
        lemma_occ_first(s.drop_last(), x);
        let t = s.drop_first();
        assert(t.drop_last() =~= s.drop_last().drop_first());
        assert(t.last() == s.last());
        assert(s.drop_last()[0] == s[0]);
        assert(occ(t, x) == occ(t.drop_last(), x) + if t.last() == x {
            1nat
        } else {
            0nat
        });
    } else {
        assert(s.drop_first().len() == 0);
        assert(s.drop_last().len() == 0);
        assert(occ(s.drop_first(), x) == 0);
        assert(occ(s.drop_last(), x) == 0);
        assert(s.last() == s[0]);
    }
}

proof fn lemma_vertex_set(n: nat)
    requires
        n <= u32::MAX,
    ensures
        vertex_set(n).finite(),
        vertex_set(n).len() == n,
    decreases n,
{
    if n == 0 {
        assert(vertex_set(0) =~= Set::empty());
    } else {
        lemma_vertex_set((n - 1) as nat);
        assert(vertex_set(n) =~= vertex_set((n - 1) as nat).insert(n as u32));
    }
}

/// While more vertices are present than the rest of the code has entries, one of
/// them is a leaf.
proof fn lemma_leaf_exists(alive: Set<u32>, rest: Seq<u32>)
    requires
        alive.finite(),
        alive.len() > rest.len(),
    ensures
        exists|x: u32| free_leaf(alive, rest, x),
{
    if forall|x: u32| !free_leaf(alive, rest, x) {
        assert forall|x: u32| alive.contains(x) implies rest.to_set().contains(x) by {
            assert(!free_leaf(alive, rest, x));
        }
        assert(alive.subset_of(rest.to_set()));
        lemma_len_subset(alive, rest.to_set());
        rest.lemma_cardinality_of_set();
    }
}

/// The first leaf found by an upward scan is the smallest one.
proof fn lemma_smallest_leaf(alive: Set<u32>, rest: Seq<u32>, x: u32)
    requires
        free_leaf(alive, rest, x),
        forall|y: u32| y < x ==> !free_leaf(alive, rest, y),
    ensures
        smallest_free_leaf(alive, rest) == x,
{
    let c = smallest_free_leaf(alive, rest);
    assert(free_leaf(alive, rest, c) && forall|y: u32| y < c ==> !free_leaf(alive, rest, y));
}

/// `w` is a walk from `start` to a vertex that is still present.
pub open spec fn tracks_to_alive(edges: Seq<(u32, u32)>, w: Seq<u32>, start: int, alive: Set<u32>) -> bool {
    &&& is_walk(edges, w)
    &&& w[0] == start
    &&& alive.contains(w.last())
}

/// The degree counter of vertex `x` (stored at index `x - 1`).
pub open spec fn deg_of(degree: Seq<u32>, x: u32) -> int {
    degree[x - 1] as int
}

/// What the counter of `x` holds during decoding: one more than the remaining
/// mentions of `x` while `x` is present, zero once it has been removed.
pub open spec fn expected_degree(alive: Set<u32>, rest: Seq<u32>, x: u32) -> int {
    if alive.contains(x) {
        1 + occ(rest, x) as int
    } else {
        0
    }
}

/// One decoding step on the counters: the leaf drops to 0, the named vertex
/// loses one mention.
proof fn lemma_step_degrees(
    nn: nat,
    deg0: Seq<u32>,
    deg1: Seq<u32>,
    alive0: Set<u32>,
    rest: Seq<u32>,
    leaf: u32,
    v: u32,
)
    requires
        deg0.len() == nn,
        rest.len() > 0,
        rest[0] == v,
        free_leaf(alive0, rest, leaf),
        alive0.contains(v),
        1 <= leaf <= nn,
        1 <= v <= nn,
        leaf != v,
        forall|x: u32| 1 <= x <= nn ==> #[trigger] deg_of(deg0, x) == expected_degree(alive0, rest, x),
        deg1 == deg0.update(leaf - 1, (deg0[leaf - 1] - 1) as u32).update(v - 1, (deg0[v - 1] - 1) as u32),
    ensures
        forall|x: u32|
            1 <= x <= nn ==> #[trigger] deg_of(deg1, x) == expected_degree(alive0.remove(leaf), rest.drop_first(), x),
{
    assert forall|x: u32| 1 <= x <= nn implies #[trigger] deg_of(deg1, x) == expected_degree(
        alive0.remove(leaf),
        rest.drop_first(),
        x,
    ) by {
        assert(deg_of(deg0, x) == expected_degree(alive0, rest, x));
        lemma_occ_first(rest, x);
        if x == leaf {
            lemma_occ_bound(rest, x);
        }
    }
}

/// Adding a loop-free edge within `1..=n` keeps all edges so.
proof fn lemma_simple_push(nn: nat, edges: Seq<(u32, u32)>, e: (u32, u32))
    requires
        simple_edges_within(nn, edges),
        1 <= e.0 <= nn,
        1 <= e.1 <= nn,
        e.0 != e.1,
    ensures
        simple_edges_within(nn, edges.push(e)),
{
    assert forall|q: int| 0 <= q < edges.push(e).len() implies {
        let f = #[trigger] edges.push(e)[q];
        &&& 1 <= f.0 <= nn
        &&& 1 <= f.1 <= nn
        &&& f.0 != f.1
    } by {
        if q < edges.len() {
            assert(edges.push(e)[q] == edges[q]);
        }
    }
}

/// After the edge `(leaf, v)` is added and `leaf` removed, every walk that ended
/// at `leaf` goes on to `v`, so every vertex still leads to a present vertex.
proof fn lemma_step_walks(
    nn: nat,
    edges0: Seq<(u32, u32)>,
    walks0: Seq<Seq<u32>>,
    alive0: Set<u32>,
    leaf: u32,
    v: u32,
) -> (walks: Seq<Seq<u32>>)
    requires
        walks0.len() == nn,
        alive0.contains(v),
        leaf != v,
        forall|j: int| 0 <= j < nn ==> #[trigger] tracks_to_alive(edges0, walks0[j], j + 1, alive0),
    ensures
        walks.len() == nn,
        forall|j: int|
            0 <= j < nn ==> #[trigger] tracks_to_alive(edges0.push((leaf, v)), walks[j], j + 1, alive0.remove(leaf)),
{
    let edges = edges0.push((leaf, v));
    let walks = Seq::new(
        nn,
        |j: int|
            if walks0[j].last() == leaf {
                walks0[j].push(v)
            } else {
                walks0[j]
            },
    );
    assert forall|j: int| 0 <= j < nn implies #[trigger] tracks_to_alive(edges, walks[j], j + 1, alive0.remove(leaf)) by {
        assert(tracks_to_alive(edges0, walks0[j], j + 1, alive0));
        lemma_walk_push_edge(edges0, (leaf, v), walks0[j]);
        if walks0[j].last() == leaf {
            lemma_adjacent_last(edges0, leaf, v);
            lemma_walk_extend(edges, walks0[j], v);
        }
    }
    walks
}

/// The rest of the code after one more entry is the rest without its first entry.
proof fn lemma_rest_step(code: Seq<u32>, t: nat)
    requires
        t < code.len(),
    ensures
        code.subrange(t as int, code.len() as int).drop_first() == code.subrange(t + 1int, code.len() as int),
        code.subrange(t as int, code.len() as int)[0] == code[t as int],
{
    assert(code.subrange(t as int, code.len() as int).drop_first() =~= code.subrange(t + 1int, code.len() as int));
}

/// One step of the decoding loop keeps its invariant.
#[verifier::rlimit(40)]
proof fn lemma_decode_step(
    code: Seq<u32>,
    t: nat,
    nn: nat,
    deg0: Seq<u32>,
    deg1: Seq<u32>,
    edges0: Seq<(u32, u32)>,
    alive0: Set<u32>,
    walks0: Seq<Seq<u32>>,
    leaf: u32,
) -> (walks1: Seq<Seq<u32>>)
    requires
        t < code.len(),
        nn == code.len() + 2,
        valid_code(code),
        deg0.len() == nn,
        alive0.finite(),
        alive0.subset_of(vertex_set(nn)),
        forall|x: u32| code.subrange(t as int, code.len() as int).contains(x) ==> alive0.contains(x),
        forall|x: u32|
            1 <= x <= nn ==> #[trigger] deg_of(deg0, x) == expected_degree(
                alive0,
                code.subrange(t as int, code.len() as int),
                x,
            ),
        edges0 + decode_from(code, t, alive0) == pruefer_tree(code),
        simple_edges_within(nn, edges0),
        no_repeated_edge(edges0),
        forall|q: int| 0 <= q < edges0.len() ==> !alive0.contains(#[trigger] edges0[q].0),
        walks0.len() == nn,
        forall|j: int| 0 <= j < nn ==> #[trigger] tracks_to_alive(edges0, walks0[j], j + 1, alive0),
        1 <= leaf <= nn,
        free_leaf(alive0, code.subrange(t as int, code.len() as int), leaf),
        leaf == smallest_free_leaf(alive0, code.subrange(t as int, code.len() as int)),
        deg1 == deg0.update(leaf - 1, (deg0[leaf - 1] - 1) as u32).update(
            code[t as int] - 1,
            (deg0[code[t as int] - 1] - 1) as u32,
        ),
    ensures
        forall|x: u32|
            code.subrange(t + 1int, code.len() as int).contains(x) ==> alive0.remove(leaf).contains(x),
        forall|x: u32|
            1 <= x <= nn ==> #[trigger] deg_of(deg1, x) == expected_degree(
                alive0.remove(leaf),
                code.subrange(t + 1int, code.len() as int),
                x,
            ),
        edges0.push((leaf, code[t as int])) + decode_from(code, t + 1, alive0.remove(leaf)) == pruefer_tree(code),
        simple_edges_within(nn, edges0.push((leaf, code[t as int]))),
        no_repeated_edge(edges0.push((leaf, code[t as int]))),
        forall|q: int|
            0 <= q < edges0.len() + 1 ==> !alive0.remove(leaf).contains(#[trigger] edges0.push((leaf, code[t as int]))[q].0),
        walks1.len() == nn,
        forall|j: int|
            0 <= j < nn ==> #[trigger] tracks_to_alive(
                edges0.push((leaf, code[t as int])),
                walks1[j],
                j + 1,
                alive0.remove(leaf),
            ),
{
    let rest = code.subrange(t as int, code.len() as int);
    let rest1 = code.subrange(t + 1int, code.len() as int);
    let v = code[t as int];
    let alive = alive0.remove(leaf);
    lemma_rest_step(code, t);
    assert(rest.contains(v));
    assert(alive0.contains(v));
    assert(1 <= v <= nn);
    assert forall|x: u32| rest1.contains(x) implies alive.contains(x) by {
        let q = choose|q: int| 0 <= q < rest1.len() && rest1[q] == x;
        assert(rest[q + 1] == x);
    }
    lemma_step_degrees(nn, deg0, deg1, alive0, rest, leaf, v);
    assert(decode_from(code, t, alive0) == seq![(leaf, v)] + decode_from(code, t + 1, alive));
    assert(edges0.push((leaf, v)) + decode_from(code, t + 1, alive) =~= edges0 + decode_from(code, t, alive0));
    lemma_simple_push(nn, edges0, (leaf, v));
    let e1 = edges0.push((leaf, v));
    assert forall|p: int, q: int| 0 <= p < q < e1.len() implies #[trigger] e1[p] != #[trigger] e1[q] && e1[p] != (
        e1[q].1,
        e1[q].0,
    ) by {
        if q < edges0.len() {
            assert(e1[p] == edges0[p] && e1[q] == edges0[q]);
        } else {
            assert(e1[p] == edges0[p]);
            assert(!alive0.contains(edges0[p].0));
        }
    }
    assert forall|q: int| 0 <= q < e1.len() implies !alive.contains(#[trigger] e1[q].0) by {
        if q < edges0.len() {
            assert(e1[q] == edges0[q]);
        }
    }
    lemma_step_walks(nn, edges0, walks0, alive0, leaf, v)
}

/// The index of the first entry equal to 1.
fn first_unit(degree: &Vec<u32>) -> (i: usize)
    requires
        exists|j: int| 0 <= j < degree.len() && degree@[j] == 1,
    ensures
        i < degree.len(),
        degree@[i as int] == 1,
        forall|k: int| 0 <= k < i ==> degree@[k] != 1,
{
    let ghost j = choose|j: int| 0 <= j < degree.len() && degree@[j] == 1;
    let mut i: usize = 0;
    loop
        invariant
            0 <= i <= j,
            0 <= j < degree.len(),
            degree@[j] == 1,
            forall|k: int| 0 <= k < i ==> degree@[k] != 1,
        decreases j - i,
    {
        if degree[i] == 1 {
            return i;
        }
        i = i + 1;
    }
}

/// The counters before decoding: one plus the number of mentions of each vertex.
fn initial_degrees(code: &[u32]) -> (degree: Vec<u32>)
    requires
        code@.len() + 2 <= u32::MAX,
        valid_code(code@),
    ensures
        degree@.len() == code@.len() + 2,
        forall|x: u32| 1 <= x <= code@.len() + 2 ==> #[trigger] deg_of(degree@, x) == 1 + occ(code@, x),
{
    let len = code.len();
    let n: usize = len + 2;
    let ghost nn: nat = n as nat;
    let mut degree: Vec<u32> = vec![1u32; n];
    let mut i: usize = 0;
    while i < len
        invariant
            0 <= i <= len,
            len == code@.len(),
            n == len + 2,
            n == nn,
            nn <= u32::MAX,
            degree@.len() == n,
            valid_code(code@),
            forall|x: u32| 1 <= x <= nn ==> #[trigger] deg_of(degree@, x) == 1 + occ(code@.subrange(0, i as int), x),
        decreases len - i,
    {
        let v = code[i];
        assert(1 <= code@[i as int] <= nn);
        let ghost before = code@.subrange(0, i as int);
        let ghost deg0 = degree@;
        proof {
            lemma_occ_bound(before, v);
            assert(deg_of(degree@, v) == 1 + occ(before, v));
        }
        let d = degree[v as usize - 1];
        degree.set(v as usize - 1, d + 1);
        i = i + 1;
        proof {
            assert(code@.subrange(0, i as int) =~= before.push(v));
            assert forall|x: u32| 1 <= x <= nn implies #[trigger] deg_of(degree@, x) == 1 + occ(
                code@.subrange(0, i as int),
                x,
            ) by {
                assert(deg_of(deg0, x) == 1 + occ(before, x));
                lemma_occ_push(before, v, x);
            }
        }
    }
    assert(code@.subrange(0, len as int) =~= code@);
    degree
}

/// The smallest leaf, found as the first counter equal to 1.
fn find_leaf(
    degree: &Vec<u32>,
    Ghost(nn): Ghost<nat>,
    Ghost(alive): Ghost<Set<u32>>,
    Ghost(rest): Ghost<Seq<u32>>,
) -> (leaf: u32)
    requires
        degree@.len() == nn,
        nn <= u32::MAX,
        alive.finite(),
        alive.len() > rest.len(),
        alive.subset_of(vertex_set(nn)),
        forall|x: u32| 1 <= x <= nn ==> #[trigger] deg_of(degree@, x) == expected_degree(alive, rest, x),
    ensures
        1 <= leaf <= nn,
        free_leaf(alive, rest, leaf),
        leaf == smallest_free_leaf(alive, rest),
        degree@[leaf - 1] == 1,
{
    proof {
        lemma_leaf_exists(alive, rest);
        let w = choose|x: u32| free_leaf(alive, rest, x);
        assert(vertex_set(nn).contains(w));
        lemma_occ_bound(rest, w);
        assert(deg_of(degree@, w) == 1);
        assert(degree@[w - 1] == 1);
    }
    let k = first_unit(degree);
    let leaf: u32 = (k + 1) as u32;
    proof {
        assert(deg_of(degree@, leaf) == 1);
        lemma_occ_bound(rest, leaf);
        assert forall|y: u32| y < leaf implies !free_leaf(alive, rest, y) by {
            if 1 <= y {
                assert(degree@[y - 1] != 1);
                assert(deg_of(degree@, y) != 1);
                lemma_occ_bound(rest, y);
            } else {
                assert(!vertex_set(nn).contains(y));
            }
        }
        lemma_smallest_leaf(alive, rest, leaf);
    }
    leaf
}

/// The decoding loop over the whole code: the edges of every step, the two
/// vertices still present at the end, and one walk from each vertex to a
/// present vertex.
fn decode_steps(code: &[u32], degree: &mut Vec<u32>) -> (res: (Vec<(u32, u32)>, Ghost<Set<u32>>, Ghost<Seq<Seq<u32>>>))
    requires
        code@.len() + 2 <= u32::MAX,
        valid_code(code@),
        old(degree)@.len() == code@.len() + 2,
        forall|x: u32| 1 <= x <= code@.len() + 2 ==> #[trigger] deg_of(old(degree)@, x) == 1 + occ(code@, x),
    ensures
        final(degree)@.len() == code@.len() + 2,
        res.1@.finite(),
        res.1@.len() == 2,
        res.1@.subset_of(vertex_set(code@.len() + 2)),
        forall|x: u32|
            1 <= x <= code@.len() + 2 ==> #[trigger] deg_of(final(degree)@, x) == expected_degree(
                res.1@,
                Seq::<u32>::empty(),
                x,
            ),
        res.0@ + decode_from(code@, code@.len(), res.1@) == pruefer_tree(code@),
        simple_edges_within(code@.len() + 2, res.0@),
        no_repeated_edge(res.0@),
        forall|q: int| 0 <= q < res.0@.len() ==> !res.1@.contains(#[trigger] res.0@[q].0),
        res.0@.len() == code@.len(),
        res.2@.len() == code@.len() + 2,
        forall|j: int| 0 <= j < code@.len() + 2 ==> #[trigger] tracks_to_alive(res.0@, res.2@[j], j + 1, res.1@),
{
    let len = code.len();
    let n: usize = len + 2;
    let ghost nn: nat = n as nat;
    proof {
        lemma_vertex_set(nn);
    }
    let ghost mut alive: Set<u32> = vertex_set(nn);
    let ghost mut walks: Seq<Seq<u32>> = Seq::new(nn, |j: int| seq![(j + 1) as u32]);
    let mut edges: Vec<(u32, u32)> = Vec::new();
    let mut t: usize = 0;
    proof {
        assert(edges@ + decode_from(code@, 0, alive) =~= pruefer_tree(code@));
        assert(code@.subrange(0, len as int) =~= code@);
        assert forall|j: int| 0 <= j < nn implies #[trigger] tracks_to_alive(edges@, walks[j], j + 1, alive) by {
            assert(walks[j].len() == 1);
        }
    }
    while t < len
        invariant
            0 <= t <= len,
            len == code@.len(),
            n == len + 2,
            n == nn,
            nn <= u32::MAX,
            degree@.len() == n,
            valid_code(code@),
            alive.finite(),
            alive.len() == nn - t,
            alive.subset_of(vertex_set(nn)),
            forall|x: u32| code@.subrange(t as int, len as int).contains(x) ==> alive.contains(x),
            forall|x: u32|
                1 <= x <= nn ==> #[trigger] deg_of(degree@, x) == expected_degree(
                    alive,
                    code@.subrange(t as int, len as int),
                    x,
                ),
            edges@ + decode_from(code@, t as nat, alive) == pruefer_tree(code@),
            edges@.len() == t,
            simple_edges_within(nn, edges@),
            no_repeated_edge(edges@),
            forall|q: int| 0 <= q < edges@.len() ==> !alive.contains(#[trigger] edges@[q].0),
            walks.len() == nn,
            forall|j: int| 0 <= j < nn ==> #[trigger] tracks_to_alive(edges@, walks[j], j + 1, alive),
        decreases len - t,
    {
        let ghost rest = code@.subrange(t as int, len as int);
        let leaf = find_leaf(degree, Ghost(nn), Ghost(alive), Ghost(rest));
        let v = code[t];
        proof {
            assert(rest[0] == v);
            assert(rest.contains(v));
            lemma_occ_bound(rest, v);
            assert(deg_of(degree@, v) == 1 + occ(rest, v));
            assert(1 <= code@[t as int] <= nn);
        }
        let ghost deg0 = degree@;
        let ghost edges0 = edges@;
        let ghost alive0 = alive;
        let ghost walks0 = walks;
        let dl = degree[leaf as usize - 1];
        degree.set(leaf as usize - 1, dl - 1);
        let dv = degree[v as usize - 1];
        degree.set(v as usize - 1, dv - 1);
        edges.push((leaf, v));
        t = t + 1;
        proof {
            alive = alive0.remove(leaf);
            walks = lemma_decode_step(code@, (t - 1) as nat, nn, deg0, degree@, edges0, alive0, walks0, leaf);
        }
    }
    assert(code@.subrange(len as int, len as int) =~= Seq::<u32>::empty());
    (edges, Ghost(alive), Ghost(walks))
}

/// The two vertices whose counters are 1 at the end, in increasing order.
fn last_pair(degree: &Vec<u32>, Ghost(nn): Ghost<nat>, Ghost(alive): Ghost<Set<u32>>) -> (pair: (u32, u32))
    requires
        degree@.len() == nn,
        nn <= u32::MAX,
        alive.finite(),
        alive.len() == 2,
        alive.subset_of(vertex_set(nn)),
        forall|x: u32| 1 <= x <= nn ==> #[trigger] deg_of(degree@, x) == expected_degree(alive, Seq::<u32>::empty(), x),
    ensures
        pair.0 < pair.1,
        alive == set![pair.0, pair.1],
{
    let n = degree.len();
    let mut remaining: Vec<u32> = Vec::new();
    let mut j: usize = 0;
    while j < n
        invariant
            0 <= j <= n,
            n == nn,
            nn <= u32::MAX,
            degree@.len() == n,
            alive.subset_of(vertex_set(nn)),
            forall|x: u32|
                1 <= x <= nn ==> #[trigger] deg_of(degree@, x) == expected_degree(alive, Seq::<u32>::empty(), x),
            forall|p: int, q: int| 0 <= p < q < remaining@.len() ==> remaining@[p] < remaining@[q],
            forall|p: int| 0 <= p < remaining@.len() ==> alive.contains(#[trigger] remaining@[p]) && remaining@[p] <= j,
            forall|x: u32| 1 <= x <= j && alive.contains(x) ==> remaining@.contains(x),
        decreases n - j,
    {
        let x: u32 = (j + 1) as u32;
        proof {
            lemma_occ_bound(Seq::<u32>::empty(), x);
            assert(deg_of(degree@, x) == expected_degree(alive, Seq::<u32>::empty(), x));
        }
        let ghost rem0 = remaining@;
        if degree[j] == 1 {
            remaining.push(x);
        }
        j = j + 1;
        proof {
            assert forall|y: u32| 1 <= y <= j && alive.contains(y) implies remaining@.contains(y) by {
                if y < j {
                    let q = choose|q: int| 0 <= q < rem0.len() && rem0[q] == y;
                    assert(remaining@[q] == y);
                } else {
                    assert(remaining@[remaining@.len() - 1] == y);
                }
            }
        }
    }
    proof {
        assert forall|y: u32| alive.contains(y) implies remaining@.to_set().contains(y) by {
            assert(vertex_set(nn).contains(y));
        }
        assert(remaining@.to_set() =~= alive);
        assert(remaining@.no_duplicates());
        remaining@.unique_seq_to_set();
    }
    let a = remaining[0];
    let b = remaining[1];
    proof {
        assert(remaining@.to_set().contains(a));
        assert(remaining@.to_set().contains(b));
        assert forall|y: u32| alive.contains(y) implies y == a || y == b by {
            assert(remaining@.to_set().contains(y));
        }
        assert(alive =~= set![a, b]);
    }
    (a, b)
}

/// Closing the decoding: the last edge joins the two remaining vertices, after
/// which every vertex has a walk to the smaller of them.
#[verifier::rlimit(40)]
proof fn lemma_close_tree(
    nn: nat,
    code: Seq<u32>,
    edges0: Seq<(u32, u32)>,
    walks: Seq<Seq<u32>>,
    alive: Set<u32>,
    a: u32,
    b: u32,
)
    requires
        nn == code.len() + 2,
        a < b,
        alive == set![a, b],
        alive.subset_of(vertex_set(nn)),
        edges0 + decode_from(code, code.len(), alive) == pruefer_tree(code),
        simple_edges_within(nn, edges0),
        no_repeated_edge(edges0),
        forall|q: int| 0 <= q < edges0.len() ==> !alive.contains(#[trigger] edges0[q].0),
        edges0.len() == code.len(),
        walks.len() == nn,
        forall|j: int| 0 <= j < nn ==> #[trigger] tracks_to_alive(edges0, walks[j], j + 1, alive),
    ensures
        edges0.push((a, b)) == pruefer_tree(code),
        is_tree(nn, edges0.push((a, b))),
        no_repeated_edge(edges0.push((a, b))),
{
    let edges = edges0.push((a, b));
    let empty = Seq::<u32>::empty();
    assert(vertex_set(nn).contains(a) && vertex_set(nn).contains(b));
    lemma_smallest_leaf(alive, empty, a);
    assert(alive.remove(a) =~= set![b]);
    lemma_smallest_leaf(alive.remove(a), empty, b);
    assert(decode_from(code, code.len(), alive) == seq![(a, b)]);
    assert(edges =~= edges0 + decode_from(code, code.len(), alive));
    lemma_simple_push(nn, edges0, (a, b));
    assert forall|p: int, q: int| 0 <= p < q < edges.len() implies #[trigger] edges[p] != #[trigger] edges[q] && edges[p]
        != (edges[q].1, edges[q].0) by {
        if q < edges0.len() {
            assert(edges[p] == edges0[p] && edges[q] == edges0[q]);
        } else {
            assert(edges[p] == edges0[p]);
            assert(!alive.contains(edges0[p].0));
        }
    }
    lemma_adjacent_last(edges0, a, b);
    let hub_walks = Seq::new(
        nn,
        |q: int|
            if walks[q].last() == b {
                walks[q].push(a)
            } else {
                walks[q]
            },
    );
    assert forall|q: int| 0 <= q < nn implies {
        let w = #[trigger] hub_walks[q];
        &&& is_walk(edges, w)
        &&& w[0] == q + 1
        &&& w.last() == a
    } by {
        assert(tracks_to_alive(edges0, walks[q], q + 1, alive));
        lemma_walk_push_edge(edges0, (a, b), walks[q]);
        if walks[q].last() == b {
            lemma_walk_extend(edges, walks[q], a);
        }
    }
    lemma_connected_via_hub(nn, edges, a, hub_walks);
}

/// How many edge ends are at `x`: its degree in the graph of `edges`.
pub open spec fn edge_degree(edges: Seq<(u32, u32)>, x: u32) -> nat
    decreases edges.len(),
{
    if edges.len() == 0 {
        0
    } else {
        (if edges[0].0 == x {
            1nat
        } else {
            0nat
        }) + (if edges[0].1 == x {
            1nat
        } else {
            0nat
        }) + edge_degree(edges.drop_first(), x)
    }
}

/// Where a free leaf exists, the smallest one is a free leaf.
proof fn lemma_smallest_exists(alive: Set<u32>, rest: Seq<u32>, x0: u32)
    requires
        free_leaf(alive, rest, x0),
    ensures
        free_leaf(alive, rest, smallest_free_leaf(alive, rest)),
    decreases x0,
{
    if exists|y: u32| y < x0 && free_leaf(alive, rest, y) {
        let y = choose|y: u32| y < x0 && free_leaf(alive, rest, y);
        lemma_smallest_exists(alive, rest, y);
    } else {
        lemma_smallest_leaf(alive, rest, x0);
    }
}

/// The degrees of one decoding step: the leaf gets its only edge, the named
/// vertex one of its edges.
proof fn lemma_degrees_step(
    rest: Seq<u32>,
    alive: Set<u32>,
    leaf: u32,
    edges: Seq<(u32, u32)>,
    tail: Seq<(u32, u32)>,
)
    requires
        rest.len() > 0,
        free_leaf(alive, rest, leaf),
        alive.contains(rest[0]),
        edges == seq![(leaf, rest[0])] + tail,
        forall|x: u32| #[trigger] edge_degree(tail, x) == expected_degree(alive.remove(leaf), rest.drop_first(), x),
    ensures
        forall|x: u32| #[trigger] edge_degree(edges, x) == expected_degree(alive, rest, x),
{
    assert(edges.drop_first() =~= tail);
    assert forall|x: u32| #[trigger] edge_degree(edges, x) == expected_degree(alive, rest, x) by {
        assert(edge_degree(tail, x) == expected_degree(alive.remove(leaf), rest.drop_first(), x));
        lemma_occ_first(rest, x);
        if x == leaf {
            lemma_occ_bound(rest, x);
        }
    }
}

/// The degrees of the last edge, which joins the two vertices still present.
proof fn lemma_degrees_last(alive: Set<u32>, a: u32, b: u32, edges: Seq<(u32, u32)>)
    requires
        alive.finite(),
        alive.len() == 2,
        alive.contains(a),
        alive.remove(a).contains(b),
        edges == seq![(a, b)],
    ensures
        forall|x: u32| #[trigger] edge_degree(edges, x) == expected_degree(alive, Seq::<u32>::empty(), x),
{
    assert(edges.drop_first() =~= Seq::<(u32, u32)>::empty());
    assert(edges[0] == (a, b));
    assert(a != b);
    let alive1 = alive.remove(a);
    assert(alive1.remove(b).len() == 0);
    assert forall|x: u32| #[trigger] edge_degree(edges, x) == expected_degree(alive, Seq::<u32>::empty(), x) by {
        if alive.contains(x) && x != a && x != b {
            assert(alive1.remove(b).contains(x));
        }
        lemma_occ_bound(Seq::<u32>::empty(), x);
        assert(edge_degree(edges.drop_first(), x) == 0);
    }
}

/// From position `t` on, decoding gives each present vertex one more edge
/// than the rest of the code names it, and the removed vertices none.
#[verifier::rlimit(40)]
proof fn lemma_decode_degrees(code: Seq<u32>, t: nat, alive: Set<u32>)
    requires
        t <= code.len(),
        alive.finite(),
        alive.len() == code.len() - t + 2,
        forall|x: u32| code.subrange(t as int, code.len() as int).contains(x) ==> alive.contains(x),
    ensures
        forall|x: u32| #[trigger] edge_degree(decode_from(code, t, alive), x) == expected_degree(
            alive,
            code.subrange(t as int, code.len() as int),
            x,
        ),
    decreases code.len() - t,
{
    let rest = code.subrange(t as int, code.len() as int);
    if t < code.len() {
        lemma_leaf_exists(alive, rest);
        let x0 = choose|x: u32| free_leaf(alive, rest, x);
        lemma_smallest_exists(alive, rest, x0);
        let leaf = smallest_free_leaf(alive, rest);
        let v = code[t as int];
        assert(rest[0] == v);
        assert(rest.contains(v));
        let alive1 = alive.remove(leaf);
        let rest1 = code.subrange(t + 1int, code.len() as int);
        assert(rest1 =~= rest.drop_first());
        assert forall|x: u32| rest1.contains(x) implies alive1.contains(x) by {
            let q = choose|q: int| 0 <= q < rest1.len() && rest1[q] == x;
            assert(rest[q + 1] == x);
            assert(rest.contains(x));
        }
        lemma_decode_degrees(code, t + 1, alive1);
        assert(decode_from(code, t, alive) == seq![(leaf, v)] + decode_from(code, t + 1, alive1));
        lemma_degrees_step(rest, alive, leaf, decode_from(code, t, alive), decode_from(code, t + 1, alive1));
    } else {
        assert(rest =~= Seq::<u32>::empty());
        lemma_leaf_exists(alive, rest);
        let x0 = choose|x: u32| free_leaf(alive, rest, x);
        lemma_smallest_exists(alive, rest, x0);
        let a = smallest_free_leaf(alive, Seq::empty());
        let alive1 = alive.remove(a);
        lemma_leaf_exists(alive1, Seq::<u32>::empty());
        let y0 = choose|x: u32| free_leaf(alive1, Seq::<u32>::empty(), x);
        lemma_smallest_exists(alive1, Seq::<u32>::empty(), y0);
        let b = smallest_free_leaf(alive1, Seq::empty());
        lemma_degrees_last(alive, a, b, decode_from(code, t, alive));
    }
}

/// In the tree of a Prüfer code, every vertex has one more edge than the code
/// names it.
pub proof fn lemma_pruefer_degrees(code: Seq<u32>)
    requires
        code.len() + 2 <= u32::MAX,
        valid_code(code),
    ensures
        forall|x: u32| 1 <= x <= code.len() + 2 ==> #[trigger] edge_degree(pruefer_tree(code), x) == 1 + occ(code, x),
{
    let nn = (code.len() + 2) as nat;
    lemma_vertex_set(nn);
    assert(code.subrange(0, code.len() as int) =~= code);
    assert forall|x: u32| code.subrange(0, code.len() as int).contains(x) implies vertex_set(nn).contains(x) by {
        let q = choose|q: int| 0 <= q < code.len() && code[q] == x;
        assert(1 <= code[q] <= code.len() + 2);
    }
    lemma_decode_degrees(code, 0, vertex_set(nn));
}

/// Decode a Prüfer sequence into edges of a tree.
///
/// The sequence has length `n-2` with values in `[1, n]`.
/// Returns `n-1` edges `(u, v)` forming a tree.
pub fn pruefer_decode(code: &[u32]) -> (edges: Vec<(u32, u32)>)
    requires
        code@.len() + 2 <= u32::MAX,
        valid_code(code@),
    ensures
        edges@ == pruefer_tree(code@),
        is_tree((code@.len() + 2) as nat, edges@),
        no_repeated_edge(edges@),
        forall|x: u32| 1 <= x <= code@.len() + 2 ==> #[trigger] edge_degree(edges@, x) == 1 + occ(code@, x),
{
    proof {
        lemma_pruefer_degrees(code@);
    }
    let ghost nn: nat = (code@.len() + 2) as nat;
    let mut degree = initial_degrees(code);
    let (mut edges, Ghost(alive), Ghost(walks)) = decode_steps(code, &mut degree);
    let (a, b) = last_pair(&degree, Ghost(nn), Ghost(alive));
    let ghost edges0 = edges@;
    edges.push((a, b));
    proof {
        lemma_close_tree(nn, code@, edges0, walks, alive, a, b);
    }
    edges
}

} // verus!
