//! Graph theory generators.
//!
//! Provides generators for trees, random graphs, connected graphs,
//! DAGs, and bipartite graphs.
//!
//! All output uses 1-indexed vertices.

use vstd::prelude::*;
use rand::rngs::StdRng;

use super::graph_model::{
    adjacent, connected, is_tree, is_walk, lemma_connected_via_hub, lemma_prefix, lemma_rearranged, no_repeated_edge,
    simple_edges_within, walk_step,
};
use super::graph_model::lemma_connected_append;
use super::pruefer::{pruefer_decode, pruefer_tree, valid_code};
use std::collections::HashSet;
use crate::rng::{random_u32_in, shuffle};
use crate::text::{dec, u32_to_string};

verus! {

// ---------------------------------------------------------------------------
// Output text
// ---------------------------------------------------------------------------

/// One output line for an edge: `u v`.
pub open spec fn edge_line(e: (u32, u32)) -> Seq<char> {
    dec(e.0 as nat) + seq![' '] + dec(e.1 as nat) + seq!['\n']
}

/// The lines of all edges, in order.
pub open spec fn edge_lines(edges: Seq<(u32, u32)>) -> Seq<char>
    decreases edges.len(),
{
    if edges.len() == 0 {
        Seq::empty()
    } else {
        edge_lines(edges.drop_last()) + edge_line(edges.last())
    }
}

/// A header line followed by one line per edge.
pub open spec fn graph_text(header: Seq<char>, edges: Seq<(u32, u32)>) -> Seq<char> {
    header + seq!['\n'] + edge_lines(edges)
}

/// Two numbers separated by a space.
pub open spec fn pair_header(a: nat, b: nat) -> Seq<char> {
    dec(a) + seq![' '] + dec(b)
}

/// Three numbers separated by spaces.
pub open spec fn triple_header(a: nat, b: nat, c: nat) -> Seq<char> {
    dec(a) + seq![' '] + dec(b) + seq![' '] + dec(c)
}

/// Appends the line of one edge.
fn push_edge_line(out: &mut String, e: (u32, u32))
    ensures
        final(out)@ == old(out)@ + edge_line(e),
{
    let a = u32_to_string(e.0);
    let b = u32_to_string(e.1);
    out.append(a.as_str());
    out.append(" ");
    out.append(b.as_str());
    out.append("\n");
    proof {
        reveal_strlit(" ");
        reveal_strlit("\n");
        assert(out@ =~= old(out)@ + edge_line(e));
    }
}

/// Format edges as a string. First line is a header, then one edge per line.
pub fn format_output(header: &str, edges: &[(u32, u32)]) -> (out: String)
    ensures
        out@ == graph_text(header@, edges@),
{
    let mut out = String::new();
    out.append(header);
    out.append("\n");
    proof {
        reveal_strlit("\n");
    }
    let mut i: usize = 0;
    while i < edges.len()
        invariant
            0 <= i <= edges.len(),
            out@ == header@ + seq!['\n'] + edge_lines(edges@.take(i as int)),
        decreases edges.len() - i,
    {
        let ghost before = out@;
        push_edge_line(&mut out, edges[i]);
        proof {
            assert(edges@.take(i + 1).drop_last() =~= edges@.take(i as int));
            assert(out@ =~= header@ + seq!['\n'] + edge_lines(edges@.take(i + 1)));
        }
        i = i + 1;
    }
    assert(edges@.take(edges.len() as int) =~= edges@);
    out
}

/// `a b`.
fn format_pair(a: u32, b: u32) -> (s: String)
    ensures
        s@ == pair_header(a as nat, b as nat),
{
    let mut s = u32_to_string(a);
    s.append(" ");
    let bs = u32_to_string(b);
    s.append(bs.as_str());
    proof {
        reveal_strlit(" ");
    }
    s
}

/// `a b c`.
fn format_triple(a: u32, b: u32, c: u32) -> (s: String)
    ensures
        s@ == triple_header(a as nat, b as nat, c as nat),
{
    let mut s = format_pair(a, b);
    s.append(" ");
    let cs = u32_to_string(c);
    s.append(cs.as_str());
    proof {
        reveal_strlit(" ");
    }
    s
}

// ---------------------------------------------------------------------------
// TreeGen
// ---------------------------------------------------------------------------

/// A random Prüfer code for a tree on `n >= 2` vertices: `n - 2` draws from `1..=n`.
fn random_code(n: u32, rng: &mut StdRng) -> (code: Vec<u32>)
    requires
        n >= 2,
    ensures
        code@.len() + 2 == n,
        valid_code(code@),
{
    let seq_len: usize = (n - 2) as usize;
    let mut code: Vec<u32> = Vec::new();
    while code.len() < seq_len
        invariant
            code@.len() <= seq_len,
            seq_len + 2 == n,
            forall|i: int| 0 <= i < code@.len() ==> 1 <= #[trigger] code@[i] <= n,
        decreases seq_len - code@.len(),
    {
        let v = random_u32_in(rng, 1, n);
        code.push(v);
    }
    code
}

/// The edges of the star with center 1 on `n` vertices.
pub open spec fn star_edges(n: nat) -> Seq<(u32, u32)> {
    Seq::new((n - 1) as nat, |i: int| (1u32, (i + 2) as u32))
}

/// The edges of the path `1 - 2 - ... - n`.
pub open spec fn chain_edges(n: nat) -> Seq<(u32, u32)> {
    Seq::new((n - 1) as nat, |i: int| ((i + 1) as u32, (i + 2) as u32))
}

/// What a tree generator prints for `n <= 1`: nothing for no vertex, the bare
/// count for one.
pub open spec fn small_tree_text(n: nat) -> Seq<char> {
    if n == 0 {
        Seq::empty()
    } else {
        graph_text(dec(n), Seq::empty())
    }
}

pub struct TreeGen;

impl TreeGen {
    /// The output for the tree with Prüfer code `code`, on `code.len() + 2` vertices.
    pub fn tree_from_code(code: &[u32]) -> (out: String)
        requires
            code@.len() + 2 <= u32::MAX,
            valid_code(code@),
        ensures
            out@ == graph_text(dec((code@.len() + 2) as nat), pruefer_tree(code@)),
            is_tree((code@.len() + 2) as nat, pruefer_tree(code@)),
    {
        let edges = pruefer_decode(code);
        let n: u32 = (code.len() + 2) as u32;
        let header = u32_to_string(n);
        format_output(header.as_str(), edges.as_slice())
    }

    /// Generate a random tree on `n` vertices using a Prüfer sequence.
    ///
    /// Output format:
    /// ```text
    /// n
    /// u1 v1
    /// u2 v2
    /// ...
    /// ```
    pub fn random_tree(n: u32, rng: &mut StdRng) -> (out: String)
        ensures
            n <= 1 ==> out@ == small_tree_text(n as nat),
            n >= 2 ==> exists|code: Seq<u32>|
                {
                    &&& code.len() + 2 == n
                    &&& valid_code(code)
                    &&& is_tree(n as nat, pruefer_tree(code))
                    &&& out@ == graph_text(dec(n as nat), pruefer_tree(code))
                },
    {
        if n <= 1 {
            return Self::small_tree(n);
        }
        let code = random_code(n, rng);
        let out = Self::tree_from_code(code.as_slice());
        assert(code@.len() + 2 == n && valid_code(code@));
        out
    }

    /// The edges of a random tree on `n >= 2` vertices, decoded from a random
    /// Prüfer code.
    pub fn random_tree_edges(n: u32, rng: &mut StdRng) -> (edges: Vec<(u32, u32)>)
        requires
            n >= 2,
        ensures
            is_tree(n as nat, edges@),
            no_repeated_edge(edges@),
            exists|code: Seq<u32>| code.len() + 2 == n && valid_code(code) && edges@ == pruefer_tree(code),
    {
        let code = random_code(n, rng);
        let edges = pruefer_decode(code.as_slice());
        assert(code@.len() + 2 == n && valid_code(code@));
        edges
    }

    /// The text for a tree on at most one vertex.
    fn small_tree(n: u32) -> (out: String)
        requires
            n <= 1,
        ensures
            out@ == small_tree_text(n as nat),
    {
        if n == 0 {
            String::new()
        } else {
            let header = u32_to_string(n);
            let empty: Vec<(u32, u32)> = Vec::new();
            let out = format_output(header.as_str(), empty.as_slice());
            assert(empty@ =~= Seq::<(u32, u32)>::empty());
            out
        }
    }

    /// Generate a star tree: center vertex 1 connected to all others.
    pub fn star(n: u32) -> (out: String)
        ensures
            n <= 1 ==> out@ == small_tree_text(n as nat),
            n >= 2 ==> out@ == graph_text(dec(n as nat), star_edges(n as nat)),
            n >= 1 ==> is_tree(n as nat, star_edges(n as nat)),
    {
        proof {
            if n >= 1 {
                lemma_star_is_tree(n as nat);
            }
        }
        if n <= 1 {
            return Self::small_tree(n);
        }
        let mut edges: Vec<(u32, u32)> = Vec::new();
        let mut v: u32 = 1;
        while v < n
            invariant
                1 <= v <= n,
                edges@ == star_edges(v as nat),
            decreases n - v,
        {
            edges.push((1, v + 1));
            proof {
                assert(edges@ =~= star_edges((v + 1) as nat));
            }
            v = v + 1;
        }
        let header = u32_to_string(n);
        format_output(header.as_str(), edges.as_slice())
    }

    /// Generate a chain (path) graph: 1-2-3-...-n.
    pub fn chain(n: u32) -> (out: String)
        ensures
            n <= 1 ==> out@ == small_tree_text(n as nat),
            n >= 2 ==> out@ == graph_text(dec(n as nat), chain_edges(n as nat)),
            n >= 1 ==> is_tree(n as nat, chain_edges(n as nat)),
    {
        proof {
            if n >= 1 {
                lemma_chain_is_tree(n as nat);
            }
        }
        if n <= 1 {
            return Self::small_tree(n);
        }
        let mut edges: Vec<(u32, u32)> = Vec::new();
        let mut v: u32 = 1;
        while v < n
            invariant
                1 <= v <= n,
                edges@ == chain_edges(v as nat),
            decreases n - v,
        {
            edges.push((v, v + 1));
            proof {
                assert(edges@ =~= chain_edges((v + 1) as nat));
            }
            v = v + 1;
        }
        let header = u32_to_string(n);
        format_output(header.as_str(), edges.as_slice())
    }
}

/// The star with center 1 is a tree.
pub proof fn lemma_star_is_tree(n: nat)
    requires
        1 <= n <= u32::MAX,
    ensures
        is_tree(n, star_edges(n)),
{
    let edges = star_edges(n);
    let walks = Seq::new(
        n,
        |j: int|
            if j == 0 {
                seq![1u32]
            } else {
                seq![(j + 1) as u32, 1u32]
            },
    );
    assert forall|j: int| 0 <= j < n implies {
        let w = #[trigger] walks[j];
        &&& is_walk(edges, w)
        &&& w[0] == j + 1
        &&& w.last() == 1
    } by {
        if j > 0 {
            assert(edges[j - 1] == (1u32, (j + 1) as u32));
            assert(walk_step(edges, walks[j], 0));
        }
    }
    lemma_connected_via_hub(n, edges, 1, walks);
}

/// The path `1 - 2 - ... - n` is a tree.
pub proof fn lemma_chain_is_tree(n: nat)
    requires
        1 <= n <= u32::MAX,
    ensures
        is_tree(n, chain_edges(n)),
{
    let edges = chain_edges(n);
    let walks = Seq::new(n, |j: int| Seq::new((n - j) as nat, |k: int| (j + 1 + k) as u32));
    assert forall|j: int| 0 <= j < n implies {
        let w = #[trigger] walks[j];
        &&& is_walk(edges, w)
        &&& w[0] == j + 1
        &&& w.last() == n
    } by {
        let w = walks[j];
        assert forall|k: int| 0 <= k < w.len() - 1 implies #[trigger] walk_step(edges, w, k) by {
            assert(edges[j + k] == ((j + k + 1) as u32, (j + k + 2) as u32));
        }
    }
    lemma_connected_via_hub(n, edges, n as u32, walks);
}

// ---------------------------------------------------------------------------
// Pair lists
// ---------------------------------------------------------------------------

/// `p` comes before `q` in lexicographic order.
pub open spec fn lex_lt(p: (u32, u32), q: (u32, u32)) -> bool {
    p.0 < q.0 || (p.0 == q.0 && p.1 < q.1)
}

/// The edges are distinct pairs `u < v` of vertices in `1..=n`.
pub open spec fn distinct_ordered_pairs(n: nat, edges: Seq<(u32, u32)>) -> bool {
    &&& edges.no_duplicates()
    &&& forall|i: int| 0 <= i < edges.len() ==> 1 <= (#[trigger] edges[i]).0 < edges[i].1 <= n
}

/// A list in strictly increasing lexicographic order has no repeats.
proof fn lemma_lex_sorted_no_duplicates(s: Seq<(u32, u32)>)
    requires
        forall|p: int, q: int| 0 <= p < q < s.len() ==> lex_lt(#[trigger] s[p], #[trigger] s[q]),
    ensures
        s.no_duplicates(),
{
    assert forall|p: int, q: int| 0 <= p < s.len() && 0 <= q < s.len() && p != q implies s[p] != s[q] by {
        if p < q {
            assert(lex_lt(s[p], s[q]));
        } else {
            assert(lex_lt(s[q], s[p]));
        }
    }
}

/// All pairs `(u, v)` with `1 <= u < v <= n`, in lexicographic order.
fn all_pairs(n: u32) -> (pairs: Vec<(u32, u32)>)
    requires
        n * (n - 1) <= u32::MAX,
    ensures
        distinct_ordered_pairs(n as nat, pairs@),
        2 * pairs@.len() == n * (n - 1),
        forall|u: u32, v: u32| 1 <= u < v <= n ==> pairs@.contains((u, v)),
{
    let mut pairs: Vec<(u32, u32)> = Vec::new();
    if n == 0 {
        return pairs;
    }
    assert(n <= 65536) by (nonlinear_arith)
        requires
            n * (n - 1) <= u32::MAX,
            n >= 1,
    ;
    let mut u: u32 = 1;
    while u <= n
        invariant
            1 <= u <= n + 1,
            1 <= n <= 65536,
            2 * pairs@.len() == (u - 1) * (2 * n - u),
            forall|p: int, q: int| 0 <= p < q < pairs@.len() ==> lex_lt(#[trigger] pairs@[p], #[trigger] pairs@[q]),
            forall|p: int| 0 <= p < pairs@.len() ==> (#[trigger] pairs@[p]).0 < u,
            forall|p: int| 0 <= p < pairs@.len() ==> 1 <= (#[trigger] pairs@[p]).0 < pairs@[p].1 <= n,
            forall|a: u32, b: u32| 1 <= a < b <= n && a < u ==> pairs@.contains((a, b)),
        decreases n + 1 - u,
    {
        let mut v: u32 = u + 1;
        let ghost len0 = pairs@.len();
        while v <= n
            invariant
                1 <= u <= n,
                u + 1 <= v <= n + 1,
                1 <= n <= 65536,
                2 * len0 == (u - 1) * (2 * n - u),
                pairs@.len() == len0 + (v - u - 1),
                forall|p: int, q: int|
                    0 <= p < q < pairs@.len() ==> lex_lt(#[trigger] pairs@[p], #[trigger] pairs@[q]),
                forall|p: int| 0 <= p < pairs@.len() ==> lex_lt(#[trigger] pairs@[p], (u, v)),
                forall|p: int| 0 <= p < pairs@.len() ==> 1 <= (#[trigger] pairs@[p]).0 < pairs@[p].1 <= n,
                forall|a: u32, b: u32|
                    1 <= a < b <= n && (a < u || (a == u && b < v)) ==> pairs@.contains((a, b)),
            decreases n + 1 - v,
        {
            let ghost old_pairs = pairs@;
            pairs.push((u, v));
            proof {
                assert forall|a: u32, b: u32| 1 <= a < b <= n && (a < u || (a == u && b < v + 1)) implies pairs@.contains(
                    (a, b),
                ) by {
                    if a == u && b == v {
                        assert(pairs@[pairs@.len() - 1] == (a, b));
                    } else {
                        assert(old_pairs.contains((a, b)));
                        let k = choose|k: int| 0 <= k < old_pairs.len() && old_pairs[k] == (a, b);
                        assert(pairs@[k] == (a, b));
                    }
                }
            }
            v = v + 1;
        }
        proof {
            assert(2 * pairs@.len() == u * (2 * n - (u + 1))) by (nonlinear_arith)
                requires
                    2 * len0 == (u - 1) * (2 * n - u),
                    pairs@.len() == len0 + (n - u),
            ;
        }
        u = u + 1;
    }
    proof {
        lemma_lex_sorted_no_duplicates(pairs@);
        assert(2 * pairs@.len() == n * (n - 1)) by (nonlinear_arith)
            requires
                2 * pairs@.len() == (n + 1 - 1) * (2 * n - (n + 1)),
        ;
    }
    pairs
}

/// Shuffles `pairs` and keeps the first `m`: the result is `m` of them, in a
/// random order, without repeats when the pairs had none.
fn shuffled_prefix(pairs: Vec<(u32, u32)>, m: u32, rng: &mut StdRng) -> (chosen: Vec<(u32, u32)>)
    requires
        m <= pairs@.len(),
    ensures
        chosen@.len() == m,
        pairs@.no_duplicates() ==> chosen@.no_duplicates(),
        forall|e: (u32, u32)| chosen@.contains(e) ==> pairs@.contains(e),
{
    let mut all = pairs;
    shuffle(&mut all, rng);
    proof {
        lemma_rearranged(pairs@, all@);
        lemma_prefix(all@, m as int);
    }
    all.truncate(m as usize);
    all
}

/// Every member of `s` satisfies the pair bounds of `distinct_ordered_pairs`.
proof fn lemma_chosen_pairs(n: nat, pairs: Seq<(u32, u32)>, chosen: Seq<(u32, u32)>)
    requires
        distinct_ordered_pairs(n, pairs),
        chosen.no_duplicates(),
        forall|e: (u32, u32)| chosen.contains(e) ==> pairs.contains(e),
    ensures
        distinct_ordered_pairs(n, chosen),
{
    assert forall|i: int| 0 <= i < chosen.len() implies 1 <= (#[trigger] chosen[i]).0 < chosen[i].1 <= n by {
        assert(chosen.contains(chosen[i]));
        let k = choose|k: int| 0 <= k < pairs.len() && pairs[k] == chosen[i];
        assert(1 <= pairs[k].0 < pairs[k].1 <= n);
    }
}

// ---------------------------------------------------------------------------
// RandomGraphGen — G(n, m) Erdős–Rényi
// ---------------------------------------------------------------------------

pub struct RandomGraphGen;

impl RandomGraphGen {
    /// Generate a random graph with `n` vertices and `m` edges (G(n,m) model).
    ///
    /// No self-loops, no duplicate edges. With no vertices the graph is empty,
    /// whatever `m` asks for: the answer is the header `0 0`.
    pub fn random_graph(n: u32, m: u32, rng: &mut StdRng) -> (out: String)
        requires
            n * (n - 1) <= u32::MAX,
            n > 0 ==> 2 * m <= n * (n - 1),
        ensures
            n == 0 ==> out@ == graph_text(pair_header(0, 0), Seq::empty()),
            n > 0 ==> exists|edges: Seq<(u32, u32)>|
                {
                    &&& edges.len() == m
                    &&& distinct_ordered_pairs(n as nat, edges)
                    &&& out@ == graph_text(pair_header(n as nat, m as nat), edges)
                },
    {
        if n == 0 {
            let none: Vec<(u32, u32)> = Vec::new();
            let header = format_pair(0, 0);
            assert(none@ =~= Seq::<(u32, u32)>::empty());
            return format_output(header.as_str(), none.as_slice());
        }
        let edges = Self::random_graph_edges(n, m, rng);
        let header = format_pair(n, m);
        format_output(header.as_str(), edges.as_slice())
    }

    /// The edges of a random graph: `m` distinct pairs `u < v` of `1..=n`, in
    /// random order.
    pub fn random_graph_edges(n: u32, m: u32, rng: &mut StdRng) -> (edges: Vec<(u32, u32)>)
        requires
            n * (n - 1) <= u32::MAX,
            2 * m <= n * (n - 1),
        ensures
            edges@.len() == m,
            distinct_ordered_pairs(n as nat, edges@),
    {
        if n == 0 || m == 0 {
            let none: Vec<(u32, u32)> = Vec::new();
            assert(distinct_ordered_pairs(n as nat, none@));
            return none;
        }
        let all_edges = all_pairs(n);
        let ghost all = all_edges@;
        let edges = shuffled_prefix(all_edges, m, rng);
        proof {
            lemma_chosen_pairs(n as nat, all, edges@);
        }
        edges
    }
}

// ---------------------------------------------------------------------------
// ConnectedGraphGen — spanning tree + extra edges
// ---------------------------------------------------------------------------

/// The key of the unordered pair `{a, b}`: the smaller endpoint in the high 32
/// bits, the larger one in the low 32 bits.
pub open spec fn pair_key(a: u32, b: u32) -> int {
    if a < b {
        a * 0x1_0000_0000 + b
    } else {
        b * 0x1_0000_0000 + a
    }
}

/// The key of the unordered pair `{a, b}`.
fn key_of(a: u32, b: u32) -> (k: u64)
    ensures
        k == pair_key(a, b),
{
    let (lo, hi) = if a < b {
        (a, b)
    } else {
        (b, a)
    };
    assert(lo * 0x1_0000_0000 + hi <= u64::MAX) by (nonlinear_arith)
        requires
            lo <= u32::MAX,
            hi <= u32::MAX,
    ;
    (lo as u64) * 0x1_0000_0000 + (hi as u64)
}

/// The key of edge `i`.
pub open spec fn edge_key(tree: Seq<(u32, u32)>, i: int) -> int {
    pair_key(tree[i].0, tree[i].1)
}

/// One of the first `i` edges of `tree` has key `k`.
pub open spec fn has_key_before(tree: Seq<(u32, u32)>, k: int, i: int) -> bool {
    exists|j: int| 0 <= j < i && k == #[trigger] edge_key(tree, j)
}

/// Some edge of `tree` has key `k`.
pub open spec fn tree_has_key(tree: Seq<(u32, u32)>, k: int) -> bool {
    has_key_before(tree, k, tree.len() as int)
}

/// The keys of the edges of `tree`.
fn edge_keys(tree: &Vec<(u32, u32)>) -> (keys: HashSet<u64>)
    ensures
        keys@.finite(),
        keys@.len() <= tree@.len(),
        forall|k: u64| keys@.contains(k) <==> tree_has_key(tree@, k as int),
{
    broadcast use vstd::std_specs::hash::group_hash_axioms;

    let mut keys: HashSet<u64> = HashSet::new();
    let mut i: usize = 0;
    while i < tree.len()
        invariant
            0 <= i <= tree.len(),
            keys@.finite(),
            keys@.len() <= i,
            forall|k: u64| keys@.contains(k) <==> has_key_before(tree@, k as int, i as int),
        decreases tree.len() - i,
    {
        let e = tree[i];
        let k = key_of(e.0, e.1);
        keys.insert(k);
        proof {
            assert(k == edge_key(tree@, i as int));
            assert forall|k2: u64| keys@.contains(k2) <==> has_key_before(tree@, k2 as int, i + 1) by {
                if has_key_before(tree@, k2 as int, i + 1) && k2 != k {
                    let j = choose|j: int| 0 <= j < i + 1 && k2 == #[trigger] edge_key(tree@, j);
                    assert(j < i);
                }
            }
        }
        i = i + 1;
    }
    keys
}

/// All pairs `u < v` of `1..=n` that no edge of `tree` joins, in lexicographic
/// order. They number at least `n(n-1)/2` minus the number of tree edges.
fn non_tree_pairs(n: u32, tree: &Vec<(u32, u32)>, keys: &HashSet<u64>) -> (cand: Vec<(u32, u32)>)
    requires
        1 <= n,
        n * (n - 1) <= u32::MAX,
        simple_edges_within(n as nat, tree@),
        keys@.finite(),
        forall|k: u64| keys@.contains(k) <==> tree_has_key(tree@, k as int),
    ensures
        distinct_ordered_pairs(n as nat, cand@),
        forall|i: int| 0 <= i < cand@.len() ==> !adjacent(tree@, (#[trigger] cand@[i]).0, cand@[i].1),
        2 * cand@.len() + 2 * keys@.len() >= n * (n - 1),
{
    broadcast use vstd::std_specs::hash::group_hash_axioms;

    assert(n <= 65536) by (nonlinear_arith)
        requires
            n * (n - 1) <= u32::MAX,
            n >= 1,
    ;
    let mut cand: Vec<(u32, u32)> = Vec::new();
    let ghost mut skipped: Set<int> = Set::empty();
    let mut u: u32 = 1;
    while u <= n
        invariant
            1 <= u <= n + 1,
            1 <= n <= 65536,
            simple_edges_within(n as nat, tree@),
            keys@.finite(),
            forall|k: u64| keys@.contains(k) <==> tree_has_key(tree@, k as int),
            2 * (cand@.len() + skipped.len()) == (u - 1) * (2 * n - u),
            skipped.finite(),
            forall|k: int| skipped.contains(k) ==> 0 <= k <= u64::MAX && keys@.contains(k as u64),
            forall|k: int| skipped.contains(k) ==> k < u * 0x1_0000_0000,
            forall|p: int, q: int| 0 <= p < q < cand@.len() ==> lex_lt(#[trigger] cand@[p], #[trigger] cand@[q]),
            forall|p: int| 0 <= p < cand@.len() ==> (#[trigger] cand@[p]).0 < u,
            forall|p: int| 0 <= p < cand@.len() ==> 1 <= (#[trigger] cand@[p]).0 < cand@[p].1 <= n,
            forall|p: int| 0 <= p < cand@.len() ==> !adjacent(tree@, (#[trigger] cand@[p]).0, cand@[p].1),
        decreases n + 1 - u,
    {
        let mut v: u32 = u + 1;
        let ghost len0 = cand@.len() + skipped.len();
        while v <= n
            invariant
                1 <= u <= n,
                u + 1 <= v <= n + 1,
                1 <= n <= 65536,
                simple_edges_within(n as nat, tree@),
                keys@.finite(),
                forall|k: u64| keys@.contains(k) <==> tree_has_key(tree@, k as int),
                2 * len0 == (u - 1) * (2 * n - u),
                cand@.len() + skipped.len() == len0 + (v - u - 1),
                skipped.finite(),
                forall|k: int| skipped.contains(k) ==> 0 <= k <= u64::MAX && keys@.contains(k as u64),
                forall|k: int| skipped.contains(k) ==> k < u * 0x1_0000_0000 + v,
                forall|p: int, q: int|
                    0 <= p < q < cand@.len() ==> lex_lt(#[trigger] cand@[p], #[trigger] cand@[q]),
                forall|p: int| 0 <= p < cand@.len() ==> lex_lt(#[trigger] cand@[p], (u, v)),
                forall|p: int| 0 <= p < cand@.len() ==> 1 <= (#[trigger] cand@[p]).0 < cand@[p].1 <= n,
                forall|p: int| 0 <= p < cand@.len() ==> !adjacent(tree@, (#[trigger] cand@[p]).0, cand@[p].1),
            decreases n + 1 - v,
        {
            let k = key_of(u, v);
            if keys.contains(&k) {
                proof {
                    assert(!skipped.contains(k as int));
                    skipped = skipped.insert(k as int);
                }
            } else {
                proof {
                    if adjacent(tree@, u, v) {
                        let i = choose|i: int|
                            0 <= i < tree@.len() && (tree@[i] == (u, v) || tree@[i] == (v, u));
                        assert(k == edge_key(tree@, i));
                        assert(tree_has_key(tree@, k as int));
                    }
                }
                cand.push((u, v));
            }
            v = v + 1;
        }
        proof {
            assert(2 * (cand@.len() + skipped.len()) == u * (2 * n - (u + 1))) by (nonlinear_arith)
                requires
                    2 * len0 == (u - 1) * (2 * n - u),
                    cand@.len() + skipped.len() == len0 + (n - u),
            ;
        }
        u = u + 1;
    }
    proof {
        lemma_lex_sorted_no_duplicates(cand@);
        assert(2 * (cand@.len() + skipped.len()) == n * (n - 1)) by (nonlinear_arith)
            requires
                2 * (cand@.len() + skipped.len()) == (n + 1 - 1) * (2 * n - (n + 1)),
        ;
        let key_ints = keys@.map(|k: u64| k as int);
        assert(skipped.subset_of(key_ints)) by {
            assert forall|k: int| skipped.contains(k) implies key_ints.contains(k) by {
                assert(keys@.contains(k as u64));
            }
        }
        vstd::set_lib::lemma_map_size_bound(keys@, key_ints, |k: u64| k as int);
        vstd::set_lib::lemma_len_subset(skipped, key_ints);
    }
    cand
}

/// The edges of a connected graph on `1..=n` with `m` edges: no loops, every
/// two vertices joined by a walk, the first `n - 1` edges a spanning tree, and
/// the rest distinct pairs `u < v` that no tree edge joins.
pub open spec fn connected_graph_edges_ok(n: nat, m: nat, edges: Seq<(u32, u32)>) -> bool {
    &&& n >= 1
    &&& edges.len() == m
    &&& simple_edges_within(n, edges)
    &&& connected(n, edges)
    &&& is_tree(n, edges.take(n - 1))
    &&& distinct_ordered_pairs(n, edges.skip(n - 1))
    &&& forall|i: int| n - 1 <= i < m ==> !adjacent(edges.take(n - 1), (#[trigger] edges[i]).0, edges[i].1)
    &&& no_repeated_edge(edges)
}

pub struct ConnectedGraphGen;

impl ConnectedGraphGen {
    /// Generate a connected graph with `n` vertices and `m` edges.
    ///
    /// Guarantees connectivity by first generating a random spanning tree,
    /// then adding `m - (n-1)` random extra edges.
    pub fn connected_graph(n: u32, m: u32, rng: &mut StdRng) -> (out: String)
        requires
            n > 0,
            m >= n - 1,
            n * (n - 1) <= u32::MAX,
            2 * m <= n * (n - 1),
        ensures
            exists|edges: Seq<(u32, u32)>|
                {
                    &&& connected_graph_edges_ok(n as nat, m as nat, edges)
                    &&& out@ == graph_text(pair_header(n as nat, m as nat), edges)
                },
    {
        let edges = Self::connected_graph_edges(n, m, rng);
        let header = format_pair(n, m);
        format_output(header.as_str(), edges.as_slice())
    }

    /// The edges of a random connected graph: a random spanning tree decoded
    /// from a Prüfer code, then `m - (n - 1)` further distinct pairs that no
    /// tree edge joins, in random order.
    pub fn connected_graph_edges(n: u32, m: u32, rng: &mut StdRng) -> (edges: Vec<(u32, u32)>)
        requires
            n > 0,
            m >= n - 1,
            n * (n - 1) <= u32::MAX,
            2 * m <= n * (n - 1),
        ensures
            connected_graph_edges_ok(n as nat, m as nat, edges@),
    {
        if n == 1 {
            let none: Vec<(u32, u32)> = Vec::new();
            proof {
                lemma_single_vertex_tree();
                assert(none@.take(0) =~= none@);
                assert(none@.skip(0) =~= none@);
            }
            return none;
        }
        // Step 1: Generate random spanning tree via Prüfer
        let tree = TreeGen::random_tree_edges(n, rng);
        let ghost tree_edges = tree@;
        // Step 2: Add remaining random edges
        let extra = m - (n - 1);
        let mut edges = tree;
        let ghost mut more: Seq<(u32, u32)> = Seq::empty();
        if extra > 0 {
            let keys = edge_keys(&edges);
            let candidates = non_tree_pairs(n, &edges, &keys);
            let ghost cand = candidates@;
            let chosen = shuffled_prefix(candidates, extra, rng);
            proof {
                lemma_chosen_pairs(n as nat, cand, chosen@);
                more = chosen@;
                assert forall|i: int| 0 <= i < more.len() implies !adjacent(
                    tree_edges,
                    (#[trigger] more[i]).0,
                    more[i].1,
                ) by {
                    assert(more.contains(more[i]));
                    let k = choose|k: int| 0 <= k < cand.len() && cand[k] == more[i];
                }
            }
            let mut i: usize = 0;
            while i < chosen.len()
                invariant
                    0 <= i <= chosen@.len(),
                    edges@ == tree_edges + chosen@.take(i as int),
                decreases chosen.len() - i,
            {
                edges.push(chosen[i]);
                assert(edges@ =~= tree_edges + chosen@.take(i + 1));
                i = i + 1;
            }
            assert(chosen@.take(chosen@.len() as int) =~= chosen@);
        } else {
            assert(edges@ =~= tree_edges + more);
        }
        proof {
            lemma_connected_append(n as nat, tree_edges, more);
            let all = edges@;
            assert(all.take(n - 1) =~= tree_edges);
            assert(all.skip(n - 1) =~= more);
            assert forall|q: int| 0 <= q < all.len() implies {
                let e = #[trigger] all[q];
                &&& 1 <= e.0 <= n
                &&& 1 <= e.1 <= n
                &&& e.0 != e.1
            } by {
                if q < n - 1 {
                    assert(all[q] == tree_edges[q]);
                } else {
                    assert(all[q] == more[q - (n - 1)]);
                }
            }
            assert forall|i: int| n - 1 <= i < m implies !adjacent(all.take(n - 1), (#[trigger] all[i]).0, all[i].1) by {
                assert(all[i] == more[i - (n - 1)]);
            }
            assert forall|p: int, q: int| 0 <= p < q < all.len() implies #[trigger] all[p] != #[trigger] all[q] && all[p]
                != (all[q].1, all[q].0) by {
                if q < n - 1 {
                    assert(all[p] == tree_edges[p] && all[q] == tree_edges[q]);
                } else if p < n - 1 {
                    assert(all[p] == tree_edges[p]);
                    assert(!adjacent(tree_edges, all[q].0, all[q].1));
                    if all[p] == all[q] || all[p] == (all[q].1, all[q].0) {
                        assert(adjacent(tree_edges, all[q].0, all[q].1));
                    }
                } else {
                    let a = p - (n - 1);
                    let b = q - (n - 1);
                    assert(all[p] == more[a] && all[q] == more[b]);
                    assert(more[a] != more[b]);
                    assert(more[b].0 < more[b].1 && more[a].0 < more[a].1);
                }
            }
        }
        edges
    }
}

// ---------------------------------------------------------------------------
// DAGGen — random directed acyclic graph
// ---------------------------------------------------------------------------

/// `order` lists the vertex indices `0..n` once each.
pub open spec fn is_vertex_order(n: nat, order: Seq<u32>) -> bool {
    &&& order.len() == n
    &&& order.no_duplicates()
    &&& forall|i: int| 0 <= i < n ==> #[trigger] order[i] < n
}

/// Edge `e` leads from an earlier vertex of `order` to a later one (vertex
/// index `x` is vertex `x + 1`).
pub open spec fn forward_edge(order: Seq<u32>, e: (u32, u32)) -> bool {
    exists|i: int, j: int|
        0 <= i < j < order.len() && e == ((#[trigger] order[i] + 1) as u32, (#[trigger] order[j] + 1) as u32)
}

/// Every edge follows the topological order `order` of the vertices `1..=n`,
/// so the directed graph has no cycle.
pub open spec fn follows_order(n: nat, order: Seq<u32>, edges: Seq<(u32, u32)>) -> bool {
    &&& is_vertex_order(n, order)
    &&& forall|k: int| 0 <= k < edges.len() ==> forward_edge(order, #[trigger] edges[k])
}

/// `w` follows edges of `edges` in their direction.
pub open spec fn is_directed_walk(edges: Seq<(u32, u32)>, w: Seq<u32>) -> bool {
    forall|k: int| 0 <= k < w.len() - 1 ==> edges.contains((#[trigger] w[k], w[k + 1]))
}

/// The position of vertex `x` (vertex index `x - 1`) in `order`.
pub open spec fn position(order: Seq<u32>, x: u32) -> int {
    choose|i: int| 0 <= i < order.len() && order[i] + 1 == x
}

/// Along an edge that follows `order`, the position grows.
proof fn lemma_forward_position(n: nat, order: Seq<u32>, e: (u32, u32))
    requires
        n <= u32::MAX,
        is_vertex_order(n, order),
        forward_edge(order, e),
    ensures
        0 <= position(order, e.0) < position(order, e.1) < order.len(),
{
    let (i, j) = choose|i: int, j: int|
        0 <= i < j < order.len() && e == ((#[trigger] order[i] + 1) as u32, (#[trigger] order[j] + 1) as u32);
    assert(order[i] < n && order[j] < n);
    assert(order[i] + 1 == e.0 && order[j] + 1 == e.1);
    let pi = position(order, e.0);
    let pj = position(order, e.1);
    assert(0 <= pi < order.len() && order[pi] + 1 == e.0);
    assert(0 <= pj < order.len() && order[pj] + 1 == e.1);
    assert(pi == i);
    assert(pj == j);
}

/// An edge of a graph whose edges follow `order` leads to a later position.
proof fn lemma_edge_position(n: nat, order: Seq<u32>, edges: Seq<(u32, u32)>, a: u32, b: u32)
    requires
        n <= u32::MAX,
        follows_order(n, order, edges),
        edges.contains((a, b)),
    ensures
        0 <= position(order, a) < position(order, b),
{
    let q = choose|q: int| 0 <= q < edges.len() && edges[q] == (a, b);
    assert(forward_edge(order, edges[q]));
    lemma_forward_position(n, order, edges[q]);
}

/// A graph whose edges all follow one order of the vertices has no directed
/// cycle: a directed walk never returns to its first vertex.
pub proof fn lemma_ordered_edges_acyclic(n: nat, order: Seq<u32>, edges: Seq<(u32, u32)>, w: Seq<u32>)
    requires
        n <= u32::MAX,
        follows_order(n, order, edges),
        is_directed_walk(edges, w),
        w.len() >= 2,
    ensures
        w[0] != w.last(),
{
    assert forall|k: int| 0 <= k < w.len() - 1 implies position(order, #[trigger] w[k]) < position(order, w[k + 1]) by {
        assert(edges.contains((w[k], w[k + 1])));
        lemma_edge_position(n, order, edges, w[k], w[k + 1]);
    }
    lemma_positions_increase(order, w, (w.len() - 1) as nat);
}

/// Positions strictly increase along the first `k` steps of the walk.
proof fn lemma_positions_increase(order: Seq<u32>, w: Seq<u32>, k: nat)
    requires
        1 <= k < w.len(),
        forall|j: int| 0 <= j < w.len() - 1 ==> position(order, #[trigger] w[j]) < position(order, w[j + 1]),
    ensures
        position(order, w[0]) < position(order, w[k as int]),
    decreases k,
{
    if k > 1 {
        lemma_positions_increase(order, w, (k - 1) as nat);
        assert(position(order, w[k - 1]) < position(order, w[k as int]));
    } else {
        assert(position(order, w[0]) < position(order, w[1]));
    }
}

/// The vertex indices `0..n` in increasing order.
fn index_range(n: u32) -> (v: Vec<u32>)
    ensures
        v@.len() == n,
        forall|i: int| 0 <= i < n ==> #[trigger] v@[i] == i,
{
    let mut v: Vec<u32> = Vec::new();
    let mut i: u32 = 0;
    while i < n
        invariant
            0 <= i <= n,
            v@.len() == i,
            forall|k: int| 0 <= k < i ==> #[trigger] v@[k] == k,
        decreases n - i,
    {
        v.push(i);
        i = i + 1;
    }
    v
}

/// All forward edges of `order`, pairs of positions in lexicographic order.
fn forward_edges(n: u32, order: &Vec<u32>) -> (edges: Vec<(u32, u32)>)
    requires
        n * (n - 1) <= u32::MAX,
        is_vertex_order(n as nat, order@),
    ensures
        edges@.no_duplicates(),
        2 * edges@.len() == n * (n - 1),
        forall|k: int| 0 <= k < edges@.len() ==> forward_edge(order@, #[trigger] edges@[k]),
{
    let mut edges: Vec<(u32, u32)> = Vec::new();
    let ghost mut idx: Seq<(int, int)> = Seq::empty();
    let mut i: u32 = 0;
    while i < n
        invariant
            0 <= i <= n,
            n * (n - 1) <= u32::MAX,
            is_vertex_order(n as nat, order@),
            2 * edges@.len() == i * (2 * n - 1 - i),
            idx.len() == edges@.len(),
            forall|k: int|
                0 <= k < idx.len() ==> {
                    &&& 0 <= (#[trigger] idx[k]).0 < idx[k].1 < n
                    &&& idx[k].0 < i
                    &&& edges@[k] == ((order@[idx[k].0] + 1) as u32, (order@[idx[k].1] + 1) as u32)
                },
            forall|p: int, q: int|
                0 <= p < q < idx.len() ==> (#[trigger] idx[p]).0 < (#[trigger] idx[q]).0 || (idx[p].0
                    == idx[q].0 && idx[p].1 < idx[q].1),
        decreases n - i,
    {
        let mut j: u32 = i + 1;
        let ghost len0 = edges@.len();
        while j < n
            invariant
                0 <= i < n,
                i + 1 <= j <= n,
                n * (n - 1) <= u32::MAX,
                is_vertex_order(n as nat, order@),
                2 * len0 == i * (2 * n - 1 - i),
                edges@.len() == len0 + (j - i - 1),
                idx.len() == edges@.len(),
                forall|k: int|
                    0 <= k < idx.len() ==> {
                        &&& 0 <= (#[trigger] idx[k]).0 < idx[k].1 < n
                        &&& (idx[k].0 < i || (idx[k].0 == i && idx[k].1 < j))
                        &&& edges@[k] == ((order@[idx[k].0] + 1) as u32, (order@[idx[k].1] + 1) as u32)
                    },
                forall|p: int, q: int|
                    0 <= p < q < idx.len() ==> (#[trigger] idx[p]).0 < (#[trigger] idx[q]).0 || (idx[p].0
                        == idx[q].0 && idx[p].1 < idx[q].1),
            decreases n - j,
        {
            assert(order@[i as int] < n && order@[j as int] < n);
            edges.push((order[i as usize] + 1, order[j as usize] + 1));
            proof {
                idx = idx.push((i as int, j as int));
            }
            j = j + 1;
        }
        proof {
            assert(2 * edges@.len() == (i + 1) * (2 * n - 1 - (i + 1))) by (nonlinear_arith)
                requires
                    2 * len0 == i * (2 * n - 1 - i),
                    edges@.len() == len0 + (n - i - 1),
            ;
        }
        i = i + 1;
    }
    proof {
        assert forall|p: int, q: int| 0 <= p < edges@.len() && 0 <= q < edges@.len() && p != q implies edges@[p]
            != edges@[q] by {
            let (a, b) = if p < q {
                (p, q)
            } else {
                (q, p)
            };
            assert(idx[a].0 < idx[b].0 || (idx[a].0 == idx[b].0 && idx[a].1 < idx[b].1));
            if idx[a].0 != idx[b].0 {
                assert(order@[idx[a].0] != order@[idx[b].0]);
            } else {
                assert(order@[idx[a].1] != order@[idx[b].1]);
            }
        }
        assert forall|k: int| 0 <= k < edges@.len() implies forward_edge(order@, #[trigger] edges@[k]) by {
            let (a, b) = idx[k];
            assert(edges@[k] == ((order@[a] + 1) as u32, (order@[b] + 1) as u32));
        }
    }
    edges
}

pub struct DAGGen;

impl DAGGen {
    /// Generate a random DAG with `n` vertices and `m` edges.
    ///
    /// Assigns a random topological order, then adds `m` forward edges
    /// (from lower order to higher order).
    pub fn random_dag(n: u32, m: u32, rng: &mut StdRng) -> (out: String)
        requires
            n > 0,
            n * (n - 1) <= u32::MAX,
            2 * m <= n * (n - 1),
        ensures
            exists|order: Seq<u32>, edges: Seq<(u32, u32)>|
                {
                    &&& edges.len() == m
                    &&& edges.no_duplicates()
                    &&& follows_order(n as nat, order, edges)
                    &&& out@ == graph_text(pair_header(n as nat, m as nat), edges)
                },
    {
        let edges = Self::random_dag_edges(n, m, rng);
        let header = format_pair(n, m);
        format_output(header.as_str(), edges.as_slice())
    }

    /// The edges of a random DAG: `m` distinct edges, each leading forward in a
    /// random order of the vertices.
    pub fn random_dag_edges(n: u32, m: u32, rng: &mut StdRng) -> (edges: Vec<(u32, u32)>)
        requires
            n > 0,
            n * (n - 1) <= u32::MAX,
            2 * m <= n * (n - 1),
        ensures
            edges@.len() == m,
            edges@.no_duplicates(),
            exists|order: Seq<u32>| follows_order(n as nat, order, edges@),
    {
        if m == 0 {
            let none: Vec<(u32, u32)> = Vec::new();
            proof {
                lemma_some_vertex_order(n as nat);
                let order = Seq::new(n as nat, |i: int| i as u32);
                assert(none@ =~= Seq::<(u32, u32)>::empty());
                assert(follows_order(n as nat, order, none@));
            }
            return none;
        }
        // Assign random topological order (permutation of 0..n)
        let mut order = index_range(n);
        let ghost ident = order@;
        shuffle(&mut order, rng);
        proof {
            assert(ident.no_duplicates());
            lemma_rearranged(ident, order@);
            assert forall|i: int| 0 <= i < n implies #[trigger] order@[i] < n by {
                assert(order@.contains(order@[i]));
            }
        }
        let all_edges = forward_edges(n, &order);
        let ghost all = all_edges@;
        let edges = shuffled_prefix(all_edges, m, rng);
        proof {
            assert forall|k: int| 0 <= k < edges@.len() implies forward_edge(order@, #[trigger] edges@[k]) by {
                assert(edges@.contains(edges@[k]));
                let q = choose|q: int| 0 <= q < all.len() && all[q] == edges@[k];
                assert(forward_edge(order@, all[q]));
            }
            assert(follows_order(n as nat, order@, edges@));
        }
        edges
    }
}

/// The identity order witnesses the edgeless graph on `1..=n`.
proof fn lemma_some_vertex_order(n: nat)
    requires
        n <= u32::MAX,
    ensures
        follows_order(n, Seq::new(n, |i: int| i as u32), Seq::empty()),
{
    let order = Seq::new(n, |i: int| i as u32);
    assert forall|i: int| 0 <= i < n implies #[trigger] order[i] < n by {}
    assert forall|i: int, j: int| 0 <= i < n && 0 <= j < n && i != j implies order[i] != order[j] by {
        assert(order[i] == i && order[j] == j);
    }
}

// ---------------------------------------------------------------------------
// BipartiteGraphGen
// ---------------------------------------------------------------------------

/// Every edge joins a left vertex `1..=left` to a right vertex
/// `left+1..=left+right`, and no edge repeats.
pub open spec fn bipartite_edges(left: nat, right: nat, edges: Seq<(u32, u32)>) -> bool {
    &&& edges.no_duplicates()
    &&& forall|k: int| 0 <= k < edges.len() ==> 1 <= (#[trigger] edges[k]).0 <= left < edges[k].1 <= left + right
}

/// All crossing pairs, in lexicographic order.
fn crossing_pairs(left: u32, right: u32) -> (pairs: Vec<(u32, u32)>)
    requires
        left * right <= u32::MAX,
        left + right <= u32::MAX,
    ensures
        bipartite_edges(left as nat, right as nat, pairs@),
        pairs@.len() == left * right,
{
    let mut pairs: Vec<(u32, u32)> = Vec::new();
    let last: u64 = left as u64 + right as u64;
    let mut l: u64 = 1;
    while l <= left as u64
        invariant
            1 <= l <= left + 1,
            last == left + right,
            left + right <= u32::MAX,
            left * right <= u32::MAX,
            pairs@.len() == (l - 1) * right,
            forall|p: int, q: int| 0 <= p < q < pairs@.len() ==> lex_lt(#[trigger] pairs@[p], #[trigger] pairs@[q]),
            forall|p: int| 0 <= p < pairs@.len() ==> (#[trigger] pairs@[p]).0 < l,
            forall|p: int| 0 <= p < pairs@.len() ==> 1 <= (#[trigger] pairs@[p]).0 <= left < pairs@[p].1 <= left + right,
        decreases left + 1 - l,
    {
        let mut r: u64 = left as u64 + 1;
        let ghost len0 = pairs@.len();
        while r <= last
            invariant
                1 <= l <= left,
                left + 1 <= r <= left + right + 1,
                last == left + right,
                left + right <= u32::MAX,
                pairs@.len() == len0 + (r - left - 1),
                forall|p: int, q: int|
                    0 <= p < q < pairs@.len() ==> lex_lt(#[trigger] pairs@[p], #[trigger] pairs@[q]),
                r <= last ==> forall|p: int| 0 <= p < pairs@.len() ==> lex_lt(#[trigger] pairs@[p], (l as u32, r as u32)),
                forall|p: int| 0 <= p < pairs@.len() ==> (#[trigger] pairs@[p]).0 <= l,
                forall|p: int|
                    0 <= p < pairs@.len() ==> 1 <= (#[trigger] pairs@[p]).0 <= left < pairs@[p].1 <= left + right,
            decreases last + 1 - r,
        {
            pairs.push((l as u32, r as u32));
            r = r + 1;
        }
        proof {
            assert(pairs@.len() == l * right) by (nonlinear_arith)
                requires
                    pairs@.len() == len0 + right,
                    len0 == (l - 1) * right,
            ;
        }
        l = l + 1;
    }
    proof {
        lemma_lex_sorted_no_duplicates(pairs@);
    }
    pairs
}

pub struct BipartiteGraphGen;

impl BipartiteGraphGen {
    /// Generate a bipartite graph with `left` vertices on the left side,
    /// `right` vertices on the right side, and `m` crossing edges.
    ///
    /// Left vertices: 1..=left
    /// Right vertices: left+1..=left+right
    pub fn bipartite_graph(left: u32, right: u32, m: u32, rng: &mut StdRng) -> (out: String)
        requires
            left * right <= u32::MAX,
            left + right <= u32::MAX,
            m <= left * right,
        ensures
            exists|edges: Seq<(u32, u32)>|
                {
                    &&& edges.len() == m
                    &&& bipartite_edges(left as nat, right as nat, edges)
                    &&& out@ == graph_text(triple_header(left as nat, right as nat, m as nat), edges)
                },
    {
        let edges = Self::bipartite_graph_edges(left, right, m, rng);
        let header = format_triple(left, right, m);
        format_output(header.as_str(), edges.as_slice())
    }

    /// The edges of a random bipartite graph: `m` distinct crossing pairs, in
    /// random order.
    pub fn bipartite_graph_edges(left: u32, right: u32, m: u32, rng: &mut StdRng) -> (edges: Vec<(u32, u32)>)
        requires
            left * right <= u32::MAX,
            left + right <= u32::MAX,
            m <= left * right,
        ensures
            edges@.len() == m,
            bipartite_edges(left as nat, right as nat, edges@),
    {
        if left == 0 || right == 0 || m == 0 {
            let none: Vec<(u32, u32)> = Vec::new();
            assert(bipartite_edges(left as nat, right as nat, none@));
            return none;
        }
        let all_edges = crossing_pairs(left, right);
        let ghost all = all_edges@;
        let edges = shuffled_prefix(all_edges, m, rng);
        proof {
            assert forall|k: int| 0 <= k < edges@.len() implies 1 <= (#[trigger] edges@[k]).0 <= left < edges@[k].1
                <= left + right by {
                assert(edges@.contains(edges@[k]));
                let q = choose|q: int| 0 <= q < all.len() && all[q] == edges@[k];
                assert(1 <= all[q].0 <= left < all[q].1 <= left + right);
            }
        }
        edges
    }
}

/// A single vertex with no edge is a tree.
proof fn lemma_single_vertex_tree()
    ensures
        is_tree(1, Seq::empty()),
{
    let walks = seq![seq![1u32]];
    assert forall|j: int| 0 <= j < 1 implies {
        let w = #[trigger] walks[j];
        &&& is_walk(Seq::empty(), w)
        &&& w[0] == j + 1
        &&& w.last() == 1
    } by {}
    lemma_connected_via_hub(1, Seq::empty(), 1, walks);
}

} // verus!
