use execution_graph::dgraph::DGraph;
use execution_graph::egraph::ETree;
use execution_graph::feedback::novel_hits;
use execution_graph::nodes::ENode;

fn create_enode(idx: u32) -> ENode {
    ENode { idx, nth: 0, weight: 1, _cumulated: 0, _claimed: false, children: vec![] }
}

fn dfs_print(node: &ENode, depth: usize) {
    println!("{}{}: {}", " ".repeat(depth * 2), node.idx, node._cumulated);
    for child in &node.children {
        dfs_print(child, depth + 1);
    }
}

fn graph_print(graph: &DGraph, idx: u32, nth: u8, depth: usize) {
    println!("{}{}: {}", " ".repeat(depth * 2), idx, graph.weight(idx, nth).unwrap());
    for (child_idx, child_nth) in graph.children(idx, nth).unwrap() {
        if depth < 8 {
            graph_print(graph, child_idx, child_nth, depth + 1);
        }
    }
}

#[test]
fn dgraph_test_insert() {
    // 1 -> 2
    //   -> 3 -> 4
    //        -> 5
    let mut tree = DGraph::new();
    tree.add_trace(vec![(1, 0), (2, 0)]);
    tree.add_trace(vec![(1, 0), (3, 0), (4, 0)]);
    tree.add_trace(vec![(1, 0), (3, 0), (5, 0)]);

    graph_print(&tree, 0, 0, 0);

    assert_eq!(tree.children(0, 0), Some(vec![(1, 0)]));
    assert_eq!(tree.children(1, 0), Some(vec![(2, 0), (3, 0)]));
    assert_eq!(tree.children(3, 0), Some(vec![(4, 0), (5, 0)]));
}

#[test]
fn dgraph_test_partition() {
    // 1 -> 2
    //   -> 3 -> 4
    //        -> 5
    let mut tree = DGraph::new();
    tree.add_trace(vec![(1, 0), (2, 0)]);
    tree.add_trace(vec![(1, 0), (3, 0), (4, 0)]);
    tree.add_trace(vec![(1, 0), (3, 0), (5, 0)]);

    for i in tree.partition(2).unwrap() {
        println!(
            "partition: {:?} with weight {:?}",
            i.plan.iter().map(|x| x.0).collect::<Vec<u32>>(),
            i.weight
        );
    }
}

#[test]
fn egraph_test_insert() {
    // 1 -> 2
    //   -> 3 -> 4
    //        -> 5
    let node1 = create_enode(1);
    let mut tree = ETree::new(node1);
    tree.add_trace(vec![(1, 0), (2, 0)]);
    tree.add_trace(vec![(1, 0), (3, 0), (4, 0)]);
    tree.add_trace(vec![(1, 0), (3, 0), (5, 0)]);

    dfs_print(tree.root(), 0);

    let root = tree.root();
    assert_eq!((root.idx, root.nth), (1, 0));
    assert_eq!(root.children.iter().map(|c| c.idx).collect::<Vec<u32>>(), vec![2, 3]);
    assert_eq!(root.children[1].children.iter().map(|c| c.idx).collect::<Vec<u32>>(), vec![4, 5]);
    assert!(root.children[0].children.is_empty());
}

#[test]
fn egraph_test_partition() {
    // 1 -> 2
    //   -> 3 -> 4
    //        -> 5
    let mut node1 = create_enode(1);
    let node2 = create_enode(2);
    let mut node3 = create_enode(3);
    let node4 = create_enode(4);
    let node5 = create_enode(5);
    node3.children.push(node4);
    node3.children.push(node5);
    node1.children.push(node2);
    node1.children.push(node3);

    let mut tree = ETree::new(node1);

    let plans = tree.partition(2).unwrap();
    for i in &plans {
        println!(
            "partition: {:?} with weight {:?}",
            i.plan.iter().map(|x| x.0).collect::<Vec<u32>>(),
            i.weight
        );
    }
    assert_eq!(plans.len(), 2);
    assert_eq!(plans[0].plan, vec![(1, 0), (3, 0), (4, 0)]);
    assert_eq!(plans[0].weight, 3);
    assert_eq!(plans[1].plan, vec![(1, 0), (3, 0), (5, 0), (1, 0), (2, 0)]);
    assert_eq!(plans[1].weight, 5);
}

#[test]
fn test_map_is_novel() {
    // sanity check
    let history = [0u8, 1, 2];
    assert_eq!(novel_hits(&[0, 1, 2], &history, &[], 0), Vec::<usize>::new());
    assert_eq!(novel_hits(&[1, 1, 3], &history, &[], 0), vec![0, 2]);
}
