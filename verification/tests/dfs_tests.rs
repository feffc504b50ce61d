use dicomp::EdgeList;
use dicomp::dfs;
use dicomp::dicomp_incidence_list_construct;

#[test]
fn dfs_test() {
    let graph = EdgeList {
        tail: vec![0, 1, 1, 2, 6, 4, 5, 3, 2, 3],
        head: vec![0, 2, 5, 6, 5, 1, 4, 6, 3, 4],
    };
    let directed_graph = dicomp_incidence_list_construct(&graph, 6, 9);
    let result = dfs(&graph, &directed_graph, 6, 1);
    assert_eq!(result.pre_label, vec![0, 1, 2, 6, 5, 4, 3]);
    assert_eq!(result.post_label, vec![0, 6, 5, 4, 1, 2, 3]);
}

#[test]
fn dfs_linear() {
    let graph = EdgeList {
        tail: vec![0, 1, 2],
        head: vec![0, 2, 3],
    };
    let directed_graph = dicomp_incidence_list_construct(&graph, 3, 2);
    let result = dfs(&graph, &directed_graph, 3, 1);

    assert_eq!(result.pre_label, vec![0, 1, 2, 3]);
    assert_eq!(result.post_label, vec![0, 3, 2, 1]);
}

#[test]
fn dfs_branching() {
    let graph = EdgeList {
        tail: vec![0, 1, 1],
        head: vec![0, 2, 3],
    };
    let directed_graph = dicomp_incidence_list_construct(&graph, 3, 2);
    let result = dfs(&graph, &directed_graph, 3, 1);

    assert_eq!(result.pre_label[1], 1);
    assert!(result.pre_label[2] < result.pre_label[3]);
    assert!(result.post_label[1] > result.post_label[2]);
    assert!(result.post_label[1] > result.post_label[3]);
}

#[test]
fn dfs_cycle() {
    let graph = EdgeList {
        tail: vec![0, 1, 2, 3],
        head: vec![0, 2, 3, 1],
    };
    let directed_graph = dicomp_incidence_list_construct(&graph, 3, 3);
    let result = dfs(&graph, &directed_graph, 3, 1);

    assert!(result.pre_label[1..=3].iter().all(|&x| x > 0));
}

#[test]
fn dfs_disconnected() {
    let graph = EdgeList {
        tail: vec![0, 1, 3],
        head: vec![0, 2, 4],
    };
    let directed_graph = dicomp_incidence_list_construct(&graph, 4, 2);
    let result = dfs(&graph, &directed_graph, 4, 1);
    assert_eq!(result.pre_label, vec![0, 1, 2, 0, 0]);
    assert_eq!(result.post_label, vec![0, 2, 1, 0, 0]);
}

#[test]
fn dfs_isolated_start() {
    let graph = EdgeList {
        tail: vec![0],
        head: vec![0],
    };
    let directed_graph = dicomp_incidence_list_construct(&graph, 2, 0);
    let result = dfs(&graph, &directed_graph, 2, 1);
    assert_eq!(result.pre_label, vec![0, 1, 0]);
    assert_eq!(result.post_label, vec![0, 1, 0]);
}

#[test]
fn dfs_reaches_exactly_reachable_set() {
    // 1 -> 2 -> 3 -> 1 is a cycle; 4 -> 5 hangs off a separate component;
    // 3 -> 5 links the cycle to 5, so from 1 everything but 4 is reached.
    let graph = EdgeList {
        tail: vec![0, 1, 2, 3, 4, 3],
        head: vec![0, 2, 3, 1, 5, 5],
    };
    let directed_graph = dicomp_incidence_list_construct(&graph, 5, 5);
    let result = dfs(&graph, &directed_graph, 5, 1);
    for w in [1usize, 2, 3, 5] {
        assert!(result.pre_label[w] > 0);
        assert!(result.post_label[w] > 0);
    }
    assert_eq!(result.pre_label[4], 0);
    assert_eq!(result.post_label[4], 0);
}

#[test]
fn dfs_labels_form_initial_segment() {
    let graph = EdgeList {
        tail: vec![0, 1, 1, 2, 6, 4, 5, 3, 2, 3],
        head: vec![0, 2, 5, 6, 5, 1, 4, 6, 3, 4],
    };
    let n = 6;
    let directed_graph = dicomp_incidence_list_construct(&graph, n, 9);
    let result = dfs(&graph, &directed_graph, n, 1);
    let reached = result.pre_label[1..=n].iter().filter(|&&x| x > 0).count();
    let mut pre: Vec<usize> = result.pre_label[1..=n]
        .iter()
        .copied()
        .filter(|&x| x > 0)
        .collect();
    let mut post: Vec<usize> = result.post_label[1..=n]
        .iter()
        .copied()
        .filter(|&x| x > 0)
        .collect();
    pre.sort();
    post.sort();
    let expected: Vec<usize> = (1..=reached).collect();
    assert_eq!(pre, expected);
    assert_eq!(post, expected);
}

#[test]
fn dfs_nested_intervals_follow_tree_edges() {
    // Tree rooted at 1: children 2 and 5; 2 has children 3 and 4.
    let graph = EdgeList {
        tail: vec![0, 1, 2, 2, 1],
        head: vec![0, 2, 3, 4, 5],
    };
    let directed_graph = dicomp_incidence_list_construct(&graph, 5, 4);
    let result = dfs(&graph, &directed_graph, 5, 1);
    // Every proper descendant is discovered after its ancestor and finished
    // before it.
    for w in 2..=5usize {
        assert!(result.pre_label[1] < result.pre_label[w]);
        assert!(result.post_label[1] > result.post_label[w]);
    }
    for w in [3usize, 4] {
        assert!(result.pre_label[2] < result.pre_label[w]);
        assert!(result.post_label[2] > result.post_label[w]);
    }
    // 5 is no descendant of 2: the intervals must not nest.
    assert!(!(result.pre_label[2] < result.pre_label[5]
        && result.post_label[2] > result.post_label[5]));
}
