use dicomp::EdgeList;
use dicomp::dicomp_incidence_list_construct;

#[test]
fn test_dicomp_incidence_list_construct() {
    let graph = EdgeList {
        tail: vec![0, 1, 1, 6, 6, 4, 5, 3, 2, 4],
        head: vec![0, 2, 5, 2, 5, 1, 4, 6, 3, 3],
    };
    let directed_graph = dicomp_incidence_list_construct(&graph, 6, 9);

    assert_eq!(directed_graph.edge_first, vec![0, 1, 8, 7, 5, 6, 3]);
    assert_eq!(directed_graph.edge_next, vec![0, 2, 0, 4, 0, 9, 0, 0, 0, 0]);
    assert_eq!(directed_graph.rev_edge_first, vec![0, 5, 1, 8, 6, 2, 7]);
    assert_eq!(
        directed_graph.rev_edge_next,
        vec![0, 3, 4, 0, 0, 0, 0, 0, 9, 0]
    );
}

#[test]
fn self_loop() {
    let g = EdgeList {
        tail: vec![0, 2],
        head: vec![0, 2],
    };
    let dg = dicomp_incidence_list_construct(&g, 3, 1);
    assert_eq!(dg.edge_first, vec![0, 0, 1, 0]);
    assert_eq!(dg.edge_next, vec![0, 0]);
    assert_eq!(dg.rev_edge_first, vec![0, 0, 1, 0]);
    assert_eq!(dg.rev_edge_next, vec![0, 0]);
}

#[test]
fn multi_edges_same_pair() {
    let g = EdgeList {
        tail: vec![0, 1, 1],
        head: vec![0, 2, 2],
    };
    let dg = dicomp_incidence_list_construct(&g, 2, 2);
    assert_eq!(dg.edge_first, vec![0, 1, 0]);
    assert_eq!(dg.edge_next, vec![0, 2, 0]);
    assert_eq!(dg.rev_edge_first, vec![0, 0, 1]);
    assert_eq!(dg.rev_edge_next, vec![0, 2, 0]);
}

#[test]
fn preserves_input_order_per_tail() {
    let g = EdgeList {
        tail: vec![0, 1, 1, 1, 1],
        head: vec![0, 4, 3, 2, 5],
    };
    let dg = dicomp_incidence_list_construct(&g, 5, 4);
    assert_eq!(dg.edge_first[1], 1);
    assert_eq!(dg.edge_next, vec![0, 2, 3, 4, 0]);
}

#[test]
fn no_edges_all_sentinels() {
    let g = EdgeList {
        tail: vec![0],
        head: vec![0],
    };
    let dg = dicomp_incidence_list_construct(&g, 2, 0);
    assert_eq!(dg.edge_first, vec![0, 0, 0]);
    assert_eq!(dg.edge_next, vec![0]);
    assert_eq!(dg.rev_edge_first, vec![0, 0, 0]);
    assert_eq!(dg.rev_edge_next, vec![0]);
}

#[test]
fn forward_chain_covers_tail_edges_in_order() {
    let g = EdgeList {
        tail: vec![0, 1, 1, 6, 6, 4, 5, 3, 2, 4],
        head: vec![0, 2, 5, 2, 5, 1, 4, 6, 3, 3],
    };
    let n = 6;
    let m = 9;
    let dg = dicomp_incidence_list_construct(&g, n, m);
    for v in 1..=n {
        let mut walked: Vec<usize> = Vec::new();
        let mut a = dg.edge_first[v];
        while a != 0 {
            walked.push(a);
            a = dg.edge_next[a];
        }
        let expected: Vec<usize> = (1..=m).filter(|&b| g.tail[b] == v).collect();
        assert_eq!(walked, expected);
    }
}

#[test]
fn reverse_chain_covers_head_edges_in_order() {
    let g = EdgeList {
        tail: vec![0, 1, 1, 6, 6, 4, 5, 3, 2, 4],
        head: vec![0, 2, 5, 2, 5, 1, 4, 6, 3, 3],
    };
    let n = 6;
    let m = 9;
    let dg = dicomp_incidence_list_construct(&g, n, m);
    for v in 1..=n {
        let mut walked: Vec<usize> = Vec::new();
        let mut a = dg.rev_edge_first[v];
        while a != 0 {
            walked.push(a);
            a = dg.rev_edge_next[a];
        }
        let expected: Vec<usize> = (1..=m).filter(|&b| g.head[b] == v).collect();
        assert_eq!(walked, expected);
    }
}

#[test]
fn every_edge_in_both_chains() {
    let g = EdgeList {
        tail: vec![0, 1, 1, 6, 6, 4, 5, 3, 2, 4],
        head: vec![0, 2, 5, 2, 5, 1, 4, 6, 3, 3],
    };
    let m = 9;
    let dg = dicomp_incidence_list_construct(&g, 6, m);
    for e in 1..=m {
        let mut in_forward = false;
        let mut a = dg.edge_first[g.tail[e]];
        while a != 0 {
            if a == e {
                in_forward = true;
            }
            a = dg.edge_next[a];
        }
        let mut in_reverse = false;
        let mut a = dg.rev_edge_first[g.head[e]];
        while a != 0 {
            if a == e {
                in_reverse = true;
            }
            a = dg.rev_edge_next[a];
        }
        assert!(in_forward);
        assert!(in_reverse);
        assert_eq!(in_forward, in_reverse);
    }
}
