use fm_verified::succinct::{BitVector, CsrGraph};


// -- BitVector tests --

#[test]
fn bitvec_empty() {
    let bv = BitVector::new(0);
    assert!(bv.is_empty());
    assert_eq!(bv.count_ones(), 0);
}

#[test]
fn bitvec_set_get() {
    let mut bv = BitVector::new(100);
    bv.set(0);
    bv.set(50);
    bv.set(99);
    bv.build_rank();

    assert!(bv.get(0));
    assert!(!bv.get(1));
    assert!(bv.get(50));
    assert!(bv.get(99));
    assert!(!bv.get(98));
    assert_eq!(bv.count_ones(), 3);
}

#[test]
fn bitvec_rank() {
    let mut bv = BitVector::new(64);
    bv.set(0);
    bv.set(5);
    bv.set(10);
    bv.set(63);
    bv.build_rank();

    assert_eq!(bv.rank(0), 0); // No bits before position 0
    assert_eq!(bv.rank(1), 1); // bit 0 is set
    assert_eq!(bv.rank(6), 2); // bits 0 and 5 are set
    assert_eq!(bv.rank(11), 3); // bits 0, 5, 10 are set
    assert_eq!(bv.rank(64), 4); // all 4 bits
}

#[test]
fn bitvec_rank_large() {
    // Test across multiple words (>64 bits).
    let n = 1000;
    let mut bv = BitVector::new(n);
    for i in (0..n).step_by(3) {
        bv.set(i);
    }
    bv.build_rank();

    // Verify rank at several points.
    let expected_at_300: u32 = (0..300).filter(|i| i % 3 == 0).count() as u32;
    assert_eq!(bv.rank(300), expected_at_300);

    let expected_at_n: u32 = (0..n).filter(|i| i % 3 == 0).count() as u32;
    assert_eq!(bv.rank(n), expected_at_n);
}

#[test]
fn bitvec_select() {
    let mut bv = BitVector::new(100);
    bv.set(10);
    bv.set(30);
    bv.set(50);
    bv.build_rank();

    assert_eq!(bv.select(0), Some(10));
    assert_eq!(bv.select(1), Some(30));
    assert_eq!(bv.select(2), Some(50));
    assert_eq!(bv.select(3), None);
}

#[test]
fn bitvec_from_bools() {
    let bits = vec![true, false, true, false, true];
    let bv = BitVector::from_bools(&bits);
    assert_eq!(bv.len(), 5);
    assert!(bv.get(0));
    assert!(!bv.get(1));
    assert!(bv.get(2));
    assert_eq!(bv.count_ones(), 3);
}

// -- CSR graph tests --

#[test]
fn csr_empty_graph() {
    let g = CsrGraph::from_edges(0, &[], true);
    assert_eq!(g.num_nodes(), 0);
    assert_eq!(g.num_edges(), 0);
}

#[test]
fn csr_directed_triangle() {
    let edges = vec![(0, 1), (1, 2), (2, 0)];
    let g = CsrGraph::from_edges(3, &edges, true);

    assert_eq!(g.num_nodes(), 3);
    assert_eq!(g.num_edges(), 3);
    assert_eq!(g.degree(0), 1);
    assert_eq!(g.degree(1), 1);
    assert_eq!(g.degree(2), 1);
    assert_eq!(g.neighbors(0), &[1]);
    assert_eq!(g.neighbors(1), &[2]);
    assert_eq!(g.neighbors(2), &[0]);
}

#[test]
fn csr_undirected_triangle() {
    let edges = vec![(0, 1), (1, 2), (2, 0)];
    let g = CsrGraph::from_edges(3, &edges, false);

    assert_eq!(g.num_nodes(), 3);
    assert_eq!(g.num_edges(), 6); // each edge stored twice
    assert_eq!(g.degree(0), 2);
    assert_eq!(g.degree(1), 2);
    assert_eq!(g.degree(2), 2);

    // Neighbors are sorted.
    assert!(g.neighbors(0).contains(&1));
    assert!(g.neighbors(0).contains(&2));
}

#[test]
fn csr_has_edge() {
    let edges = vec![(0, 1), (0, 2), (1, 3)];
    let g = CsrGraph::from_edges(4, &edges, true);

    assert!(g.has_edge(0, 1));
    assert!(g.has_edge(0, 2));
    assert!(g.has_edge(1, 3));
    assert!(!g.has_edge(1, 0)); // directed
    assert!(!g.has_edge(2, 3));
}

#[test]
fn csr_isolated_nodes() {
    let edges = vec![(0, 1)];
    let g = CsrGraph::from_edges(5, &edges, true);

    assert_eq!(g.num_nodes(), 5);
    assert_eq!(g.degree(0), 1);
    assert_eq!(g.degree(1), 0);
    assert_eq!(g.degree(2), 0);
    assert_eq!(g.degree(3), 0);
    assert_eq!(g.degree(4), 0);
}

#[test]
fn csr_memory_compact() {
    // Compare memory of CSR vs Vec<Vec<usize>> for 1000 nodes, 3000 edges.
    let n = 1000;
    let edges: Vec<(usize, usize)> = (0..3000).map(|i| (i % n, (i * 7 + 13) % n)).collect();
    let g = CsrGraph::from_edges(n, &edges, true);

    let csr_mem = g.memory_bytes();
    // Vec<Vec<usize>> estimate: n * (24 bytes vec overhead) + edges * 8 bytes
    let vecvec_mem = n * 24 + 3000 * 8;

    assert!(
        csr_mem < vecvec_mem,
        "CSR ({csr_mem} bytes) should be more compact than Vec<Vec> ({vecvec_mem} bytes)"
    );
}

#[test]
fn csr_deterministic() {
    let edges = vec![(2, 0), (0, 2), (1, 0), (0, 1)];
    let g1 = CsrGraph::from_edges(3, &edges, true);
    let g2 = CsrGraph::from_edges(3, &edges, true);

    // Same edges should produce identical neighbor lists.
    for i in 0..3 {
        assert_eq!(g1.neighbors(i), g2.neighbors(i));
    }
}

#[test]
fn csr_neighbors_sorted() {
    let edges = vec![(0, 5), (0, 2), (0, 8), (0, 1), (0, 3)];
    let g = CsrGraph::from_edges(10, &edges, true);

    let n = g.neighbors(0);
    assert!(
        n.windows(2).all(|w| w[0] <= w[1]),
        "Neighbors should be sorted"
    );
}

#[test]
fn csr_self_loop() {
    let edges = vec![(0, 0), (0, 1)];
    let g = CsrGraph::from_edges(2, &edges, true);

    assert_eq!(g.degree(0), 2);
    assert!(g.has_edge(0, 0));
    assert!(g.has_edge(0, 1));
}

#[test]
fn csr_out_of_range_node() {
    let g = CsrGraph::from_edges(3, &[(0, 1)], true);
    assert_eq!(g.degree(999), 0);
    assert!(g.neighbors(999).is_empty());
}


#[test]
fn csr_from_edges_sorts_neighbors_and_counts_both_directions() {
    let g = CsrGraph::from_edges(4, &[(2, 0), (0, 3), (0, 1), (1, 1), (5, 0)], false);
    assert_eq!(g.neighbors(0), &[1, 2, 3]);
    assert_eq!(g.neighbors(1), &[0, 1]);
    // Three non-loop edges stored twice, the loop once; the out-of-range edge dropped.
    assert_eq!(g.num_edges(), 7);
}
