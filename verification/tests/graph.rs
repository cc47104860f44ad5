use datagen::gen::graph::{BipartiteGraphGen, ConnectedGraphGen, DAGGen, RandomGraphGen, TreeGen};
use datagen::gen::pruefer::pruefer_decode;
use petgraph::algo;
use petgraph::graph::{DiGraph, UnGraph};
use rand::rngs::StdRng;
use rand::SeedableRng;

/// Helper: create a deterministic RNG with fixed seed.
fn rng_fixed() -> StdRng {
    StdRng::seed_from_u64(42)
}

/// Parse output string into (header, edges).
fn parse_output(output: &str) -> (Vec<&str>, Vec<(u32, u32)>) {
    let mut lines = output.trim().lines();
    let header: Vec<&str> = lines.next().unwrap_or("").split_whitespace().collect();
    let edges: Vec<(u32, u32)> = lines
        .map(|line| {
            let parts: Vec<u32> = line.split_whitespace().map(|s| s.parse().unwrap()).collect();
            (parts[0], parts[1])
        })
        .collect();
    (header, edges)
}

fn build_ungraph(n: u32, edges: &[(u32, u32)]) -> UnGraph<(), ()> {
    let mut g = UnGraph::new_undirected();
    let nodes: Vec<_> = (0..n).map(|_| g.add_node(())).collect();
    for &(u, v) in edges {
        g.add_edge(nodes[u as usize - 1], nodes[v as usize - 1], ());
    }
    g
}

fn build_digraph(n: u32, edges: &[(u32, u32)]) -> DiGraph<(), ()> {
    let mut g = DiGraph::new();
    let nodes: Vec<_> = (0..n).map(|_| g.add_node(())).collect();
    for &(u, v) in edges {
        g.add_edge(nodes[u as usize - 1], nodes[v as usize - 1], ());
    }
    g
}

#[test]
fn test_treegen_random_tree_has_n_minus_1_edges() {
    let out = TreeGen::random_tree(5, &mut rng_fixed());
    let (_header, edges) = parse_output(&out);
    assert_eq!(edges.len(), 4, "n=5 tree must have 4 edges");
}

#[test]
fn test_treegen_random_tree_connected() {
    let n = 10;
    let out = TreeGen::random_tree(n, &mut rng_fixed());
    let (_header, edges) = parse_output(&out);
    assert_eq!(edges.len(), n as usize - 1);
    let g = build_ungraph(n, &edges);
    assert_eq!(algo::connected_components(&g), 1, "random tree must be connected");
}

#[test]
fn test_treegen_star_center_in_all_edges() {
    let out = TreeGen::star(4);
    let (_header, edges) = parse_output(&out);
    assert_eq!(edges.len(), 3);
    for &(u, v) in &edges {
        assert!(u == 1 || v == 1, "star: center 1 must appear in every edge");
    }
}

#[test]
fn test_treegen_star_output() {
    let out = TreeGen::star(4);
    let (_header, edges) = parse_output(&out);
    assert_eq!(edges, vec![(1, 2), (1, 3), (1, 4)]);
}

#[test]
fn test_treegen_chain_output() {
    let out = TreeGen::chain(4);
    let (_header, edges) = parse_output(&out);
    assert_eq!(edges, vec![(1, 2), (2, 3), (3, 4)]);
}

#[test]
fn test_treegen_chain_connected() {
    let n = 10;
    let out = TreeGen::chain(n);
    let (_header, edges) = parse_output(&out);
    let g = build_ungraph(n, &edges);
    assert_eq!(algo::connected_components(&g), 1, "chain must be connected");
}

#[test]
fn star_and_chain_exact_text() {
    assert_eq!(TreeGen::star(3), "3\n1 2\n1 3\n");
    assert_eq!(TreeGen::chain(3), "3\n1 2\n2 3\n");
    assert_eq!(TreeGen::star(0), "");
    assert_eq!(TreeGen::chain(0), "");
}

#[test]
fn test_treegen_n1_empty() {
    let out = TreeGen::random_tree(1, &mut rng_fixed());
    assert_eq!(out.trim(), "1");
}

#[test]
fn test_treegen_n1_star() {
    let out = TreeGen::star(1);
    assert_eq!(out.trim(), "1");
}

#[test]
fn test_treegen_n1_chain() {
    let out = TreeGen::chain(1);
    assert_eq!(out.trim(), "1");
}

#[test]
fn test_treegen_n2_random() {
    let out = TreeGen::random_tree(2, &mut rng_fixed());
    let (_header, edges) = parse_output(&out);
    assert_eq!(edges.len(), 1, "n=2 tree must have 1 edge");
    let g = build_ungraph(2, &edges);
    assert_eq!(algo::connected_components(&g), 1);
}

#[test]
fn test_treegen_deterministic() {
    let out1 = TreeGen::random_tree(10, &mut rng_fixed());
    let out2 = TreeGen::random_tree(10, &mut rng_fixed());
    assert_eq!(out1, out2, "same seed must produce same output");
}

#[test]
fn pruefer_decode_known_code() {
    // The code (4, 4, 4, 5) belongs to the tree with edges 1-4, 2-4, 3-4, 4-5, 5-6.
    assert_eq!(pruefer_decode(&[4, 4, 4, 5]), vec![(1, 4), (2, 4), (3, 4), (4, 5), (5, 6)]);
    assert_eq!(pruefer_decode(&[]), vec![(1, 2)]);
    assert_eq!(pruefer_decode(&[1]), vec![(2, 1), (1, 3)]);
}

#[test]
fn pruefer_decode_every_code_gives_a_tree() {
    // all codes of length 3 over 1..=5
    for a in 1..=5u32 {
        for b in 1..=5u32 {
            for c in 1..=5u32 {
                let edges = pruefer_decode(&[a, b, c]);
                assert_eq!(edges.len(), 4);
                let g = build_ungraph(5, &edges);
                assert_eq!(algo::connected_components(&g), 1);
            }
        }
    }
}

#[test]
fn tree_from_code_text() {
    assert_eq!(TreeGen::tree_from_code(&[4, 4, 4, 5]), "6\n1 4\n2 4\n3 4\n4 5\n5 6\n");
}

#[test]
fn test_random_graph_has_m_edges() {
    let out = RandomGraphGen::random_graph(5, 7, &mut rng_fixed());
    let (_header, edges) = parse_output(&out);
    assert_eq!(edges.len(), 7, "must have exactly 7 edges");
}

#[test]
fn test_random_graph_no_self_loops() {
    let out = RandomGraphGen::random_graph(5, 7, &mut rng_fixed());
    let (_header, edges) = parse_output(&out);
    for &(u, v) in &edges {
        assert_ne!(u, v, "no self-loops allowed");
    }
}

#[test]
fn test_random_graph_no_duplicates() {
    let out = RandomGraphGen::random_graph(10, 20, &mut rng_fixed());
    let (_header, edges) = parse_output(&out);
    let mut seen = std::collections::HashSet::new();
    for &(u, v) in &edges {
        let key = if u < v { (u, v) } else { (v, u) };
        assert!(seen.insert(key), "duplicate edge ({}, {})", u, v);
    }
}

#[test]
fn test_random_graph_header() {
    let out = RandomGraphGen::random_graph(5, 7, &mut rng_fixed());
    let (header, _edges) = parse_output(&out);
    assert_eq!(header, vec!["5", "7"]);
}

#[test]
fn test_random_graph_deterministic() {
    let out1 = RandomGraphGen::random_graph(10, 15, &mut rng_fixed());
    let out2 = RandomGraphGen::random_graph(10, 15, &mut rng_fixed());
    assert_eq!(out1, out2);
}

#[test]
fn test_random_graph_m0() {
    let out = RandomGraphGen::random_graph(5, 0, &mut rng_fixed());
    assert_eq!(out.trim(), "5 0");
}

#[test]
fn test_connected_graph_is_connected() {
    let n = 5;
    let m = 7;
    let out = ConnectedGraphGen::connected_graph(n, m, &mut rng_fixed());
    let (_header, edges) = parse_output(&out);
    assert_eq!(edges.len(), m as usize);
    let g = build_ungraph(n, &edges);
    assert_eq!(algo::connected_components(&g), 1, "connected graph must be connected");
}

#[test]
fn test_connected_graph_header() {
    let out = ConnectedGraphGen::connected_graph(5, 7, &mut rng_fixed());
    let (header, _edges) = parse_output(&out);
    assert_eq!(header, vec!["5", "7"]);
}

#[test]
fn test_connected_graph_min_edges() {
    let n = 10;
    let m = n - 1; // tree
    let out = ConnectedGraphGen::connected_graph(n, m, &mut rng_fixed());
    let (_header, edges) = parse_output(&out);
    assert_eq!(edges.len(), m as usize);
    let g = build_ungraph(n, &edges);
    assert_eq!(algo::connected_components(&g), 1);
}

#[test]
fn test_connected_graph_deterministic() {
    let out1 = ConnectedGraphGen::connected_graph(8, 12, &mut rng_fixed());
    let out2 = ConnectedGraphGen::connected_graph(8, 12, &mut rng_fixed());
    assert_eq!(out1, out2);
}

#[test]
fn test_connected_graph_n1() {
    let out = ConnectedGraphGen::connected_graph(1, 0, &mut rng_fixed());
    assert_eq!(out.trim(), "1 0");
}

#[test]
fn connected_graph_complete_has_no_duplicates() {
    let out = ConnectedGraphGen::connected_graph(6, 15, &mut rng_fixed());
    let (_header, edges) = parse_output(&out);
    let mut seen = std::collections::HashSet::new();
    for &(u, v) in &edges {
        assert_ne!(u, v);
        let key = if u < v { (u, v) } else { (v, u) };
        assert!(seen.insert(key), "duplicate edge ({}, {})", u, v);
    }
    assert_eq!(seen.len(), 15);
}

#[test]
fn test_dag_is_acyclic() {
    let n = 10;
    let m = 20;
    let out = DAGGen::random_dag(n, m, &mut rng_fixed());
    let (_header, edges) = parse_output(&out);
    assert_eq!(edges.len(), m as usize);
    let g = build_digraph(n, &edges);
    assert!(!algo::is_cyclic_directed(&g), "DAG must be acyclic");
}

#[test]
fn test_dag_header() {
    let out = DAGGen::random_dag(10, 20, &mut rng_fixed());
    let (header, _edges) = parse_output(&out);
    assert_eq!(header, vec!["10", "20"]);
}

#[test]
fn test_dag_forward_edges() {
    let n = 10;
    let m = 20;
    let out = DAGGen::random_dag(n, m, &mut rng_fixed());
    let (_header, edges) = parse_output(&out);
    let g = build_digraph(n, &edges);
    assert!(!algo::is_cyclic_directed(&g));
}

#[test]
fn test_dag_deterministic() {
    let out1 = DAGGen::random_dag(10, 20, &mut rng_fixed());
    let out2 = DAGGen::random_dag(10, 20, &mut rng_fixed());
    assert_eq!(out1, out2);
}

#[test]
fn test_dag_m0() {
    let out = DAGGen::random_dag(5, 0, &mut rng_fixed());
    assert_eq!(out.trim(), "5 0");
}

#[test]
fn test_dag_no_self_loops() {
    let out = DAGGen::random_dag(10, 20, &mut rng_fixed());
    let (_header, edges) = parse_output(&out);
    for &(u, v) in &edges {
        assert_ne!(u, v, "DAG: no self-loops");
    }
}

#[test]
fn dag_complete_is_a_tournament_order() {
    let out = DAGGen::random_dag(6, 15, &mut rng_fixed());
    let (_header, edges) = parse_output(&out);
    let g = build_digraph(6, &edges);
    assert!(!algo::is_cyclic_directed(&g));
    let mut seen = std::collections::HashSet::new();
    for &(u, v) in &edges {
        assert!(seen.insert((u.min(v), u.max(v))));
    }
}

#[test]
fn test_bipartite_no_intra_side_edges() {
    let left = 3;
    let right = 4;
    let m = 8;
    let out = BipartiteGraphGen::bipartite_graph(left, right, m, &mut rng_fixed());
    let (_header, edges) = parse_output(&out);
    assert_eq!(edges.len(), m as usize);
    for &(u, v) in &edges {
        assert!(u <= left, "u={} must be in left side (1..{})", u, left);
        assert!(v > left, "v={} must be in right side ({}+1..{})", v, left, left + right);
    }
}

#[test]
fn test_bipartite_header() {
    let out = BipartiteGraphGen::bipartite_graph(3, 4, 8, &mut rng_fixed());
    let (header, _edges) = parse_output(&out);
    assert_eq!(header, vec!["3", "4", "8"]);
}

#[test]
fn test_bipartite_is_bipartite() {
    let left = 3;
    let right = 4;
    let m = 8;
    let out = BipartiteGraphGen::bipartite_graph(left, right, m, &mut rng_fixed());
    let (_header, edges) = parse_output(&out);
    let n = left + right;
    let g = build_ungraph(n, &edges);
    let start = g.node_indices().next().unwrap();
    assert!(algo::is_bipartite_undirected(&g, start), "bipartite graph must be 2-colorable");
}

#[test]
fn test_bipartite_deterministic() {
    let out1 = BipartiteGraphGen::bipartite_graph(3, 4, 8, &mut rng_fixed());
    let out2 = BipartiteGraphGen::bipartite_graph(3, 4, 8, &mut rng_fixed());
    assert_eq!(out1, out2);
}

#[test]
fn test_bipartite_m0() {
    let out = BipartiteGraphGen::bipartite_graph(3, 4, 0, &mut rng_fixed());
    assert_eq!(out.trim(), "3 4 0");
}

#[test]
fn bipartite_empty_side() {
    let out = BipartiteGraphGen::bipartite_graph(0, 4, 0, &mut rng_fixed());
    assert_eq!(out, "0 4 0\n");
}

#[test]
fn test_all_generators_n0() {
    let t = TreeGen::random_tree(0, &mut rng_fixed());
    assert!(t.is_empty() || t.trim().is_empty());

    let rg = RandomGraphGen::random_graph(0, 0, &mut rng_fixed());
    assert_eq!(rg.trim(), "0 0");
}

#[test]
fn random_graph_without_vertices_ignores_m() {
    assert_eq!(RandomGraphGen::random_graph(0, 5, &mut rng_fixed()), "0 0\n");
}

#[test]
fn test_max_edges_random_graph() {
    // Complete graph K5 has 10 edges
    let out = RandomGraphGen::random_graph(5, 10, &mut rng_fixed());
    let (_header, edges) = parse_output(&out);
    assert_eq!(edges.len(), 10);
    let mut all: std::collections::HashSet<(u32, u32)> = std::collections::HashSet::new();
    for u in 1..=5 {
        for v in (u + 1)..=5 {
            all.insert((u, v));
        }
    }
    let got: std::collections::HashSet<(u32, u32)> =
        edges.iter().map(|&(a, b)| if a < b { (a, b) } else { (b, a) }).collect();
    assert_eq!(got, all);
}

#[test]
fn pruefer_degrees_follow_the_code() {
    let code = [4u32, 4, 4, 5];
    let edges = pruefer_decode(&code);
    for x in 1..=6u32 {
        let deg = edges.iter().filter(|e| e.0 == x).count() + edges.iter().filter(|e| e.1 == x).count();
        let occ = code.iter().filter(|&&c| c == x).count();
        assert_eq!(deg, occ + 1);
    }
}
