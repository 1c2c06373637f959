use execution_graph::codec::SerializableDGraph;
use execution_graph::dgraph::DGraph;
use execution_graph::egraph::ETree;
use execution_graph::error::GraphError;
use execution_graph::feedback::{is_interesting, novel_hits};
use execution_graph::hook::{find_predecessor, on_execution_finished, on_testcase_found, reconstruct};
use execution_graph::nodes::ENode;
use execution_graph::partition::PartitionPlan;
use execution_graph::seeds::SeedStore;
use execution_graph::wire::{decode_frame, encode_frame, get_u32, FRAME_LEN, MAX_PAYLOAD};
use execution_graph::worker::{apply_plans, Coordinator, Outcome, Worker, EDGES};

fn caterpillar() -> DGraph {
    let mut graph = DGraph::new();
    graph.add_trace(vec![(1, 0), (2, 0)]);
    graph.add_trace(vec![(1, 0), (3, 0), (4, 0)]);
    graph.add_trace(vec![(1, 0), (3, 0), (5, 0)]);
    graph
}

fn leaf(idx: u32) -> ENode {
    ENode { idx, nth: 0, weight: 1, _cumulated: 0, _claimed: true, children: vec![] }
}

#[test]
fn insertion_shape() {
    let graph = caterpillar();
    assert_eq!(graph.len(), 6);
    for idx in 1..6u32 {
        assert!(graph.contains(idx, 0));
    }
    assert_eq!(graph.children(0, 0), Some(vec![(1, 0)]));
    assert_eq!(graph.children(1, 0), Some(vec![(2, 0), (3, 0)]));
    assert_eq!(graph.children(3, 0), Some(vec![(4, 0), (5, 0)]));
    assert_eq!(graph.children(2, 0), Some(vec![]));
    assert_eq!(graph.weight(1, 0), Some(3));
    assert_eq!(graph.weight(3, 0), Some(2));
    assert_eq!(graph.weight(2, 0), Some(1));
    assert_eq!(graph.weight(4, 0), Some(1));
    assert_eq!(graph.weight(5, 0), Some(1));
    assert_eq!(graph.weight(0, 0), Some(0));
    assert_eq!(graph.total_weight(), 8);
    assert_eq!(graph.key_at(0), (0, 0));
    assert_eq!(graph.key_at(5), (5, 0));
}

#[test]
fn node_count_is_distinct_keys_plus_root() {
    let mut graph = DGraph::new();
    graph.add_trace(vec![(7, 0), (8, 0), (7, 1), (8, 0)]);
    graph.add_trace(vec![(8, 0), (9, 0)]);
    assert_eq!(graph.len(), 5);
    assert_eq!(graph.weight(7, 0), Some(1));
    assert_eq!(graph.weight(7, 1), Some(1));
    assert_eq!(graph.weight(8, 0), Some(3));
    assert_eq!(graph.weight(9, 0), Some(1));
    assert_eq!(graph.weight(0, 0), Some(0));
    assert_eq!(graph.weight(10, 0), None);
    assert_eq!(graph.children(8, 0), Some(vec![(7, 1), (9, 0)]));
    assert_eq!(graph.children(0, 0), Some(vec![(7, 0), (8, 0)]));
}

#[test]
fn a_trace_through_the_root_key_counts_on_the_root() {
    let mut graph = DGraph::new();
    graph.add_trace(vec![(0, 0), (1, 0)]);
    assert_eq!(graph.len(), 2);
    assert_eq!(graph.weight(0, 0), Some(1));
    assert_eq!(graph.children(0, 0), Some(vec![(0, 0), (1, 0)]));
}

#[test]
fn weights_do_not_depend_on_the_order_of_traces() {
    let traces = vec![vec![(1, 0), (2, 0)], vec![(2, 0), (1, 0), (3, 0)], vec![(3, 0)]];
    let mut forward = DGraph::new();
    for trace in traces.iter() {
        forward.add_trace(trace.clone());
    }
    let mut backward = DGraph::new();
    for trace in traces.iter().rev() {
        backward.add_trace(trace.clone());
    }
    for idx in 0..5u32 {
        assert_eq!(forward.weight(idx, 0), backward.weight(idx, 0));
    }
    assert_eq!(forward.weight(1, 0), Some(2));
    assert_eq!(forward.weight(3, 0), Some(2));
    assert_eq!(forward.total_weight(), 6);
}

#[test]
fn merge_commutativity() {
    let mut a = DGraph::new();
    a.add_trace(vec![(1, 0), (2, 0)]);
    let mut b = DGraph::new();
    b.add_trace(vec![(1, 0), (3, 0)]);

    let mut ab = DGraph::new();
    ab.merge(&a);
    ab.merge(&b);
    let mut ba = DGraph::new();
    ba.merge(&b);
    ba.merge(&a);

    a.merge(&b);
    for graph in [&a, &ab, &ba] {
        assert_eq!(graph.len(), 4);
        assert!(graph.contains(1, 0) && graph.contains(2, 0) && graph.contains(3, 0));
        assert_eq!(graph.weight(1, 0), Some(2));
        assert_eq!(graph.weight(2, 0), Some(1));
        assert_eq!(graph.weight(3, 0), Some(1));
        let mut children = graph.children(1, 0).unwrap();
        children.sort();
        assert_eq!(children, vec![(2, 0), (3, 0)]);
    }
    assert_eq!(a.children(1, 0), Some(vec![(2, 0), (3, 0)]));
    assert_eq!(ba.children(1, 0), Some(vec![(3, 0), (2, 0)]));
}

#[test]
fn the_order_of_merges_changes_no_weight() {
    let mut a = DGraph::new();
    a.add_trace(vec![(1, 0), (2, 0)]);
    let mut b = DGraph::new();
    b.add_trace(vec![(2, 0), (1, 0), (3, 0)]);
    let mut c = DGraph::new();
    c.add_trace(vec![(3, 0), (3, 1)]);
    let mut forward = DGraph::new();
    for graph in [&a, &b, &c] {
        forward.merge(graph);
    }
    let mut backward = DGraph::new();
    for graph in [&c, &b, &a] {
        backward.merge(graph);
    }
    assert_eq!(forward.len(), backward.len());
    for key in [(0, 0), (1, 0), (2, 0), (3, 0), (3, 1)] {
        assert_eq!(forward.weight(key.0, key.1), backward.weight(key.0, key.1));
        let mut f = forward.children(key.0, key.1).unwrap();
        let mut g = backward.children(key.0, key.1).unwrap();
        f.sort();
        g.sort();
        assert_eq!(f, g);
    }
    assert_eq!(forward.weight(3, 0), Some(2));
    assert_eq!(forward.total_weight(), 7);
}

#[test]
fn merge_is_associative_up_to_child_order() {
    let mut a = DGraph::new();
    a.add_trace(vec![(1, 0), (2, 0)]);
    let mut b = DGraph::new();
    b.add_trace(vec![(1, 0), (3, 0), (2, 0)]);
    let mut c = DGraph::new();
    c.add_trace(vec![(4, 0), (1, 0), (5, 0)]);

    let mut left = DGraph::new();
    left.merge(&a);
    left.merge(&b);
    left.merge(&c);

    let mut bc = DGraph::new();
    bc.merge(&b);
    bc.merge(&c);
    let mut right = DGraph::new();
    right.merge(&a);
    right.merge(&bc);

    assert_eq!(left.len(), right.len());
    for idx in 0..6u32 {
        assert_eq!(left.weight(idx, 0), right.weight(idx, 0));
        let mut l = left.children(idx, 0).unwrap();
        let mut r = right.children(idx, 0).unwrap();
        l.sort();
        r.sort();
        assert_eq!(l, r);
    }
    assert_eq!(left.weight(1, 0), Some(3));
}

#[test]
fn try_merge_refuses_what_does_not_fit() {
    let heavy = SerializableDGraph { nodes: vec![(0, 0, 0), (1, 0, u64::MAX)], edges: vec![] };
    let theirs = DGraph::from_parts(&heavy).unwrap();
    let mut graph = DGraph::new();
    graph.add_trace(vec![(1, 0)]);
    assert_eq!(graph.try_merge(&theirs), Err(GraphError::MalformedGraph));
    assert_eq!(graph.weight(1, 0), Some(1));
    let mut light = DGraph::new();
    light.add_trace(vec![(2, 0)]);
    assert_eq!(graph.try_merge(&light), Ok(()));
    assert_eq!(graph.weight(2, 0), Some(1));
}

#[test]
fn flat_partition_cuts_in_order() {
    let mut graph = caterpillar();
    let plans = graph.partition(2).unwrap();
    assert_eq!(plans.len(), 2);
    assert_eq!(plans[0].plan, vec![(0, 0), (1, 0), (2, 0)]);
    assert_eq!(plans[0].weight, 4);
    assert_eq!(plans[1].plan, vec![(3, 0), (4, 0), (5, 0)]);
    assert_eq!(plans[1].weight, 4);

    let plans = graph.partition(4).unwrap();
    assert_eq!(plans.len(), 4);
    assert_eq!(plans[0].plan, vec![(0, 0)]);
    assert_eq!(plans[3].plan, vec![(3, 0), (4, 0), (5, 0)]);
    assert_eq!(plans[3].weight, 4);
    assert!(plans.iter().all(|plan| plan.dependencies.is_empty()));
}

#[test]
fn flat_partition_refuses_bad_counts() {
    let mut graph = caterpillar();
    assert_eq!(graph.partition(0).err(), Some(GraphError::InvalidArity));
    assert_eq!(graph.partition(7).err(), Some(GraphError::InvalidArity));
    assert_eq!(graph.partition(6).unwrap().len(), 6);
}

#[test]
fn round_trip() {
    let graph = caterpillar();
    let bytes = graph.serialize();
    assert_eq!(bytes.len(), 8 + 6 * 13 + 8 + 5 * 8);
    let back = DGraph::deserialize(bytes).unwrap();
    assert_eq!(back.len(), 6);
    for idx in 0..6u32 {
        assert_eq!(back.weight(idx, 0), graph.weight(idx, 0));
    }
    assert_eq!(back.children(1, 0), Some(vec![(2, 0), (3, 0)]));
    assert_eq!(back.children(3, 0), Some(vec![(4, 0), (5, 0)]));
    assert_eq!(back.children(0, 0), Some(vec![(1, 0)]));
}

#[test]
fn round_trip_collapses_visits_on_links() {
    let mut graph = DGraph::new();
    graph.add_trace(vec![(1, 0), (2, 0), (1, 1), (3, 0)]);
    let back = DGraph::deserialize(graph.serialize()).unwrap();
    assert_eq!(back.weight(1, 1), Some(1));
    assert_eq!(back.children(2, 0), Some(vec![(1, 0)]));
    assert_eq!(back.children(1, 0), Some(vec![(2, 0), (3, 0)]));
    assert_eq!(back.children(1, 1), Some(vec![]));
}

#[test]
fn wire_form_is_what_bincode_writes() {
    let graph = caterpillar();
    let parts = graph.to_parts();
    let expected = bincode::serialize(&(parts.nodes.clone(), parts.edges.clone())).unwrap();
    assert_eq!(graph.serialize(), expected);
    let read: (Vec<(u32, u8, u64)>, Vec<(u32, u32)>) = bincode::deserialize(&expected).unwrap();
    let ours = SerializableDGraph::from_bytes(&expected).unwrap();
    assert_eq!(ours.nodes, read.0);
    assert_eq!(ours.edges, read.1);
    assert_eq!(ours.nodes[1], (1, 0, 3));
    assert_eq!(ours.edges[0], (0, 1));
}

#[test]
fn wire_form_byte_by_byte() {
    let parts = SerializableDGraph { nodes: vec![(0x0102_0304, 7, 0x0a0b)], edges: vec![(1, 2)] };
    assert_eq!(
        parts.to_bytes(),
        vec![
            1, 0, 0, 0, 0, 0, 0, 0, 4, 3, 2, 1, 7, 0x0b, 0x0a, 0, 0, 0, 0, 0, 0, 1, 0, 0, 0, 0, 0,
            0, 0, 1, 0, 0, 0, 2, 0, 0, 0
        ]
    );
}

#[test]
fn malformed_streams_are_refused() {
    let graph = caterpillar();
    let bytes = graph.serialize();
    let mut longer = bytes.clone();
    longer.push(0);
    assert_eq!(DGraph::deserialize(longer).err(), Some(GraphError::MalformedGraph));
    let shorter = bytes[..bytes.len() - 1].to_vec();
    assert_eq!(DGraph::deserialize(shorter).err(), Some(GraphError::MalformedGraph));
    assert_eq!(DGraph::deserialize(vec![]).err(), Some(GraphError::MalformedGraph));
    assert_eq!(DGraph::deserialize(vec![0xff; 16]).err(), Some(GraphError::MalformedGraph));
    assert!(DGraph::deserialize(vec![0; 16]).is_ok());
}

#[test]
fn links_to_unknown_edges_are_refused() {
    let dangling = SerializableDGraph { nodes: vec![(1, 0, 1)], edges: vec![(1, 9)] };
    assert_eq!(DGraph::from_parts(&dangling).err(), Some(GraphError::MalformedGraph));
    let later_visit = SerializableDGraph { nodes: vec![(1, 1, 1)], edges: vec![(0, 1)] };
    assert_eq!(DGraph::from_parts(&later_visit).err(), Some(GraphError::MalformedGraph));
    let fine = SerializableDGraph { nodes: vec![(1, 0, 1)], edges: vec![(0, 1), (0, 1)] };
    let graph = DGraph::from_parts(&fine).unwrap();
    assert_eq!(graph.children(0, 0), Some(vec![(1, 0)]));
}

#[test]
fn a_key_read_twice_keeps_the_later_weight() {
    let parts = SerializableDGraph { nodes: vec![(1, 0, 5), (0, 0, 2), (1, 0, 9)], edges: vec![] };
    let graph = DGraph::from_parts(&parts).unwrap();
    assert_eq!(graph.len(), 2);
    assert_eq!(graph.weight(1, 0), Some(9));
    assert_eq!(graph.weight(0, 0), Some(2));
    assert_eq!(graph.total_weight(), 11);
    let heavy = SerializableDGraph { nodes: vec![(1, 0, u64::MAX), (2, 0, 1)], edges: vec![] };
    assert_eq!(DGraph::from_parts(&heavy).err(), Some(GraphError::MalformedGraph));
}

#[test]
fn tree_insertion_keeps_a_place_for_the_branch_not_taken() {
    let mut tree = ETree::new(leaf(1));
    tree.add_trace(vec![(1, 0), (2, 0)]);
    {
        let root = tree.root();
        assert_eq!(root.children.len(), 2);
        assert_eq!((root.children[0].idx, root.children[0]._claimed), (2, true));
        assert_eq!((root.children[1].idx, root.children[1]._claimed), (u32::MAX, false));
    }
    tree.add_trace(vec![(1, 0), (3, 0), (4, 0)]);
    let root = tree.root();
    assert_eq!((root.children[1].idx, root.children[1]._claimed), (3, true));
    assert_eq!(root.children[1].children.len(), 2);
    assert_eq!(root.children[1].children[0].idx, 4);
    assert_eq!(root.children[1].children[1].idx, u32::MAX - 1);
    assert!(!root.children[1].children[1]._claimed);
    assert_eq!(root.children[1].weight, 1);
}

#[test]
fn partition_of_a_caterpillar() {
    let mut tree = ETree::new(leaf(1));
    tree.add_trace(vec![(1, 0), (2, 0)]);
    tree.add_trace(vec![(1, 0), (3, 0), (4, 0)]);
    tree.add_trace(vec![(1, 0), (3, 0), (5, 0)]);
    let plans = tree.partition(2).unwrap();
    assert_eq!(plans.len(), 2);
    let mut leaves: Vec<u32> = vec![];
    for plan in &plans {
        let mut i = 0;
        while i < plan.plan.len() {
            let is_last = i + 1 == plan.plan.len() || plan.plan[i + 1] == (1, 0);
            if is_last {
                leaves.push(plan.plan[i].0);
            }
            i += 1;
        }
    }
    leaves.sort();
    assert_eq!(leaves, vec![2, 4, 5]);
    assert_eq!(plans[0].weight, 3);
    assert_eq!(plans[1].weight, 5);
    let root = tree.root();
    assert_eq!(root._cumulated, 1);
    assert_eq!(root.children[1]._cumulated, 2);
    assert_eq!(root.children[1].children[0]._cumulated, 3);
}

#[test]
fn tree_partition_orders_packs_and_folds() {
    let mut root = leaf(0);
    root.weight = 0;
    for (idx, weight) in [(1u32, 2u64), (2, 7), (3, 2), (4, 5), (5, 1)] {
        let mut child = leaf(idx);
        child.weight = weight;
        root.children.push(child);
    }
    let mut tree = ETree::new(root);
    // total 17, three plans, target 5; by weight: 7 | 5 | 2 2 1 | -> [7] [5] [2,2,1]
    let plans = tree.partition(3).unwrap();
    assert_eq!(plans.len(), 3);
    assert_eq!(plans[0].plan, vec![(0, 0), (2, 0)]);
    assert_eq!(plans[1].plan, vec![(0, 0), (4, 0)]);
    assert_eq!(plans[2].plan, vec![(0, 0), (1, 0), (0, 0), (3, 0), (0, 0), (5, 0)]);
    assert_eq!(plans.iter().map(|p| p.weight).collect::<Vec<u64>>(), vec![7, 5, 5]);
    // two plans, target 8: [7,1] [5,2] [2] -> the third folds into the second
    let plans = tree.partition(2).unwrap();
    assert_eq!(plans.len(), 2);
    assert_eq!(plans[0].plan, vec![(0, 0), (2, 0), (0, 0), (5, 0)]);
    assert_eq!(plans[1].plan, vec![(0, 0), (4, 0), (0, 0), (1, 0), (0, 0), (3, 0)]);
    assert_eq!(plans.iter().map(|p| p.weight).collect::<Vec<u64>>(), vec![8, 9]);
    // more plans than leaves: one leaf each
    let plans = tree.partition(9).unwrap();
    assert_eq!(plans.len(), 5);
    assert_eq!(tree.partition(0).err(), Some(GraphError::InvalidArity));
}

#[test]
fn plan_merge_appends_and_adds() {
    let mut left = PartitionPlan::new();
    left.plan.push((1, 0));
    left.weight = 3;
    left.dependencies.insert(0, vec![1]);
    left.dependencies.insert(1, vec![2]);
    let mut right = PartitionPlan::new();
    right.plan.push((2, 1));
    right.plan.push((3, 0));
    right.weight = 4;
    right.dependencies.insert(1, vec![7, 8]);
    left.merge(&right);
    assert_eq!(left.plan, vec![(1, 0), (2, 1), (3, 0)]);
    assert_eq!(left.weight, 7);
    assert_eq!(left.dependencies.get(&0), Some(&vec![1]));
    assert_eq!(left.dependencies.get(&1), Some(&vec![7, 8]));
    assert_eq!(left.serialize(), vec![1, 2, 3]);
}

#[test]
fn frames() {
    let bytes = encode_frame(2, &[9, 8, 7]).unwrap();
    assert_eq!(bytes.len(), FRAME_LEN);
    assert_eq!(&bytes[..9], &[0, 0, 0, 4, 2, 9, 8, 7, 0]);
    assert_eq!(get_u32(&bytes, 0), 4);
    let frame = decode_frame(&bytes).unwrap();
    assert_eq!(frame.kind, 2);
    assert_eq!(frame.payload, vec![9, 8, 7]);
    assert_eq!(get_u32(&[1, 2, 3, 4, 5], 1), 0x0203_0405);
    assert!(encode_frame(0, &vec![1; MAX_PAYLOAD]).is_some());
    assert!(encode_frame(0, &vec![1; MAX_PAYLOAD + 1]).is_none());
    let full = encode_frame(0, &vec![1; MAX_PAYLOAD]).unwrap();
    assert_eq!(&full[..5], &[0, 0, 0x0f, 0xfc, 0]);
    assert_eq!(decode_frame(&full).unwrap().payload.len(), MAX_PAYLOAD);
    assert!(decode_frame(&[0, 0, 0, 0, 1, 2]).is_none());
    assert!(decode_frame(&[0, 0, 0, 3, 1, 2]).is_none());
    assert!(decode_frame(&[0, 0, 0, 1]).is_none());
    assert_eq!(decode_frame(&[0, 0, 0, 2, 1, 2]).unwrap().payload, vec![2]);
}

#[test]
fn edge_traces_become_keys() {
    assert_eq!(reconstruct(&[5, 6, 5, 5, 0, 0]), vec![(5, 0), (6, 0), (5, 1), (5, 2), (0, 0), (0, 1)]);
    let long = vec![3u32; 600];
    let keys = reconstruct(&long);
    assert_eq!(keys[254], (3, 254));
    assert_eq!(keys[255], (3, 0));
    assert_eq!(keys[256], (3, 1));
    assert_eq!(keys[510], (3, 0));
    let mut graph = DGraph::new();
    on_execution_finished(&mut graph, &[5, 6, 5]);
    assert_eq!(graph.len(), 4);
    assert_eq!(graph.children(6, 0), Some(vec![(5, 1)]));
}

#[test]
fn cross_partition_routing() {
    let mut partitions = vec![0u32; EDGES];
    partitions[42] = 2;
    partitions[17] = 2;
    let trace = [3u32, 17, 42, 9];
    let data = [0xde, 0xad, 0xbe, 0xef];
    let messages = on_testcase_found(&data, &[42], &trace, &partitions, 1);
    assert_eq!(messages.len(), 1);
    assert_eq!(messages[0].dest, 2);
    let frame = decode_frame(&messages[0].bytes).unwrap();
    assert_eq!(frame.kind, 2);
    assert_eq!(frame.payload, data.to_vec());
    // the owner itself keeps the testcase, and an edge without owner is dropped
    assert!(on_testcase_found(&data, &[42], &trace, &partitions, 2).is_empty());
    assert!(on_testcase_found(&data, &[17], &trace, &partitions, 1).is_empty());
    assert!(on_testcase_found(&vec![0; MAX_PAYLOAD + 1], &[42], &trace, &partitions, 1).is_empty());
    assert_eq!(find_predecessor(&trace, 42), 17);
    assert_eq!(find_predecessor(&trace, 3), 0);
    assert_eq!(find_predecessor(&trace, 1000), 9);
}

#[test]
fn ignored_mask_flip() {
    let mut global = DGraph::new();
    global.add_trace(vec![(5, 0), (6, 0), (10, 0), (11, 0), (12, 0)]);
    // six nodes, two processes: [root, 5, 6] goes to rank 1, [10, 11, 12] to rank 2
    let mut worker = Worker::new(2, 2);
    let outcome = worker.on_message(&encode_frame(1, &global.serialize()).unwrap());
    assert!(matches!(outcome, Outcome::Reconciled));
    for edge in [10usize, 11, 12] {
        assert!(!worker.ignored[edge]);
        assert_eq!(worker.partitions[edge], 2);
    }
    for edge in [0usize, 5, 6] {
        assert!(worker.ignored[edge]);
        assert_eq!(worker.partitions[edge], 1);
    }
    assert!(!worker.ignored[13]);
    assert_eq!(worker.partitions[13], 0);
}

#[test]
fn reconciliation_is_idempotent() {
    let mut global = DGraph::new();
    global.add_trace(vec![(5, 0), (6, 0), (10, 0), (11, 0), (12, 0)]);
    let message = encode_frame(1, &global.serialize()).unwrap();
    let mut worker = Worker::new(1, 3);
    worker.graph.add_trace(vec![(20, 0), (5, 0)]);
    assert!(matches!(worker.on_message(&message), Outcome::Reconciled));
    let ignored = worker.ignored.clone();
    let partitions = worker.partitions.clone();
    assert!(matches!(worker.on_message(&message), Outcome::Reconciled));
    assert_eq!(worker.ignored, ignored);
    assert_eq!(worker.partitions, partitions);
    assert_eq!(worker.graph.weight(5, 0), Some(3));
}

#[test]
fn a_worker_sorts_its_messages() {
    let mut worker = Worker::new(1, 2);
    let testcase = encode_frame(2, &[1, 2, 3]).unwrap();
    match worker.on_message(&testcase) {
        Outcome::Testcase(data) => assert_eq!(data, vec![1, 2, 3]),
        other => panic!("{:?}", other),
    }
    assert!(matches!(worker.on_message(&encode_frame(0, &[]).unwrap()), Outcome::Ignored));
    assert!(matches!(worker.on_message(&[0, 0]), Outcome::Ignored));
    let garbage = encode_frame(1, &[1, 2, 3]).unwrap();
    assert!(matches!(worker.on_message(&garbage), Outcome::Dropped(GraphError::MalformedGraph)));
    // a fleet of two cannot share out a graph of one node
    let lonely = encode_frame(1, &DGraph::new().serialize()).unwrap();
    assert!(matches!(worker.on_message(&lonely), Outcome::Dropped(GraphError::InvalidArity)));
    assert!(worker.ignored.iter().all(|masked| !masked));
    let upload = worker.upload().unwrap();
    let frame = decode_frame(&upload).unwrap();
    assert_eq!(frame.kind, 0);
    assert_eq!(frame.payload, worker.graph.serialize());
}

#[test]
fn the_coordinator_merges_and_answers() {
    let mut coordinator = Coordinator::new();
    let mut first = Worker::new(1, 3);
    first.graph.add_trace(vec![(1, 0), (2, 0)]);
    let mut second = Worker::new(2, 3);
    second.graph.add_trace(vec![(1, 0), (3, 0)]);
    let answer = coordinator.on_message(&first.upload().unwrap()).unwrap();
    assert_eq!(decode_frame(&answer).unwrap().kind, 1);
    let answer = coordinator.on_message(&second.upload().unwrap()).unwrap();
    let global = DGraph::deserialize(decode_frame(&answer).unwrap().payload).unwrap();
    assert_eq!(global.len(), 4);
    assert_eq!(global.weight(1, 0), Some(2));
    assert_eq!(coordinator.master.weight(1, 0), Some(2));
    assert_eq!(
        coordinator.on_message(&encode_frame(2, &[1]).unwrap()).err(),
        Some(GraphError::TransportFailure)
    );
    assert_eq!(
        coordinator.on_message(&encode_frame(0, &[1]).unwrap()).err(),
        Some(GraphError::MalformedGraph)
    );
    let mut big = Worker::new(1, 3);
    big.graph.add_trace((1..400u32).map(|edge| (edge, 0)).collect());
    assert_eq!(big.upload().err(), Some(GraphError::TransportFailure));
}

#[test]
fn tables_follow_the_last_plan_that_names_an_edge() {
    let mut ignored = vec![false; EDGES];
    let mut partitions = vec![0u32; EDGES];
    let mut first = PartitionPlan::new();
    first.plan = vec![(1, 0), (2, 0)];
    let mut second = PartitionPlan::new();
    second.plan = vec![(2, 1), (3, 0), (70000, 0)];
    apply_plans(&mut ignored, &mut partitions, &vec![first, second], 1);
    assert_eq!(&partitions[..5], &[0, 1, 2, 2, 0]);
    assert_eq!(&ignored[..5], &[false, false, false, true, false]);
}

#[test]
fn novelty_is_a_higher_count_on_an_edge_that_is_not_masked() {
    let map = [0u8, 3, 1, 2, 5];
    let history = [0u8, 3, 0, 4];
    let mut ignored = vec![false; 5];
    assert_eq!(novel_hits(&map, &history, &ignored, 0), vec![2, 4]);
    assert!(is_interesting(&map, &history, &ignored, 0));
    ignored[2] = true;
    ignored[4] = true;
    assert_eq!(novel_hits(&map, &history, &ignored, 0), Vec::<usize>::new());
    assert!(!is_interesting(&map, &history, &ignored, 0));
    assert_eq!(novel_hits(&map, &history, &[], 0), vec![2, 4]);
}

#[test]
fn nodes_compare_without_their_scratch() {
    let mut tree = ETree::new(leaf(1));
    tree.add_trace(vec![(1, 0), (2, 0), (3, 0)]);
    let before = tree.root().clone();
    let mut copy = tree.clone();
    assert!(*copy.root() == before);
    copy.partition(2).unwrap();
    assert!(copy.root()._cumulated != before._cumulated);
    assert!(*copy.root() == before);
    copy.add_trace(vec![(1, 0), (2, 0), (4, 0)]);
    assert!(*copy.root() != before);
    let mut heavier = leaf(1);
    heavier.weight = 2;
    assert!(heavier != leaf(1));
    assert!(leaf(1) == leaf(1));
    assert!(leaf(1) != leaf(2));
}

#[test]
fn plans_can_be_copied() {
    let mut plan = PartitionPlan::new();
    plan.plan.push((4, 2));
    plan.weight = 9;
    plan.dependencies.insert(3, vec![1, 2]);
    let copy = plan.clone();
    assert_eq!(copy.plan, plan.plan);
    assert_eq!(copy.weight, 9);
    assert_eq!(copy.dependencies, plan.dependencies);
}

#[test]
fn checked_leaf_sum_adds_the_paths() {
    let mut root = leaf(0);
    let mut inner = leaf(1);
    inner.children.push(leaf(2));
    inner.children.push(leaf(3));
    root.children.push(inner);
    root.children.push(leaf(4));
    let tree = ETree::new(root);
    // paths 0-1-2, 0-1-3, 0-4 weigh 3 + 3 + 2
    assert_eq!(tree.checked_leaf_sum(), Some(8));
    let mut heavy = leaf(0);
    heavy.weight = u64::MAX;
    heavy.children.push(leaf(1));
    assert_eq!(ETree::new(heavy).checked_leaf_sum(), None);
}

fn star(weights: &[u64]) -> ETree {
    let mut root = leaf(0);
    root.weight = 0;
    for (i, weight) in weights.iter().enumerate() {
        let mut child = leaf(i as u32 + 1);
        child.weight = *weight;
        root.children.push(child);
    }
    ETree::new(root)
}

#[test]
fn plans_stay_within_twice_the_target_after_one_fold() {
    // total 30, four plans, target 7: bins [7] [6,1] [5,1] [5] [5] would be one too many
    let mut tree = star(&[5, 7, 6, 5, 1, 1, 5]);
    let plans = tree.partition(4).unwrap();
    assert_eq!(plans.iter().map(|p| p.weight).collect::<Vec<u64>>(), vec![7, 7, 6, 10]);
    assert!(plans.iter().all(|p| p.weight <= 2 * 7));
    let members: usize = plans.iter().map(|p| p.plan.len()).sum();
    assert_eq!(members, 2 * 7);
}

#[test]
fn many_folds_make_a_heavy_last_plan() {
    // total 56, four plans, target 14: no two leaves share a bin, and four bins fold into one
    let mut tree = star(&[8, 8, 8, 8, 8, 8, 8]);
    let plans = tree.partition(4).unwrap();
    assert_eq!(plans.iter().map(|p| p.weight).collect::<Vec<u64>>(), vec![8, 8, 8, 32]);
    // one leaf heavier than all the rest
    let mut tree = star(&[100, 1, 1]);
    let plans = tree.partition(3).unwrap();
    assert_eq!(plans.iter().map(|p| p.weight).collect::<Vec<u64>>(), vec![100, 2]);
}

type Parts = (Vec<(u32, u8, u64)>, Vec<(u32, u32)>);

fn samples() -> Vec<Parts> {
    vec![
        (vec![], vec![]),
        (vec![(0, 0, 0)], vec![]),
        (vec![(u32::MAX, u8::MAX, u64::MAX)], vec![(u32::MAX, 0), (0, u32::MAX)]),
        (vec![(1, 2, 3), (0x0102_0304, 5, 0x0102_0304_0506_0708)], vec![(7, 8)]),
        ((0..300u32).map(|i| (i, (i % 256) as u8, (i as u64) << 40)).collect(), (0..299u32).map(|i| (i, i + 1)).collect()),
    ]
}

#[test]
fn wire_form_agrees_with_bincode_both_ways() {
    for (nodes, edges) in samples() {
        let parts = SerializableDGraph { nodes: nodes.clone(), edges: edges.clone() };
        let ours = parts.to_bytes();
        let theirs = bincode::serialize(&(nodes.clone(), edges.clone())).unwrap();
        assert_eq!(ours, theirs);
        let back = SerializableDGraph::from_bytes(&theirs).unwrap();
        assert_eq!((back.nodes, back.edges), (nodes.clone(), edges.clone()));
        let read: Parts = bincode::deserialize(&ours).unwrap();
        assert_eq!(read, (nodes, edges));
    }
}

#[test]
fn short_streams_are_refused_as_bincode_refuses_them() {
    for (nodes, edges) in samples() {
        let bytes = SerializableDGraph { nodes, edges }.to_bytes();
        for cut in 0..bytes.len() {
            let theirs: Result<Parts, _> = bincode::deserialize(&bytes[..cut]);
            let ours = SerializableDGraph::from_bytes(&bytes[..cut].to_vec());
            assert!(theirs.is_err());
            assert_eq!(ours.err(), Some(GraphError::MalformedGraph));
        }
        let mut longer = bytes.clone();
        longer.push(7);
        assert_eq!(SerializableDGraph::from_bytes(&longer).err(), Some(GraphError::MalformedGraph));
    }
}

#[test]
fn the_seed_store_hands_out_what_a_rank_has_not_seen() {
    let mut store = SeedStore::new();
    assert!(store.on_message(1, &encode_frame(3, &[1, 1]).unwrap()).is_empty());
    assert!(store.on_message(2, &encode_frame(3, &[2]).unwrap()).is_empty());
    let replies = store.on_message(1, &encode_frame(0, &[]).unwrap());
    assert_eq!(replies.len(), 3);
    let count = decode_frame(&replies[0]).unwrap();
    assert_eq!((count.kind, count.payload), (1, vec![0, 0, 0, 2]));
    assert_eq!(decode_frame(&replies[1]).unwrap().payload, vec![1, 1]);
    assert_eq!(decode_frame(&replies[2]).unwrap().payload, vec![2]);
    assert_eq!(decode_frame(&replies[2]).unwrap().kind, 2);
    store.on_message(2, &encode_frame(3, &[3, 3, 3]).unwrap());
    let replies = store.on_message(1, &encode_frame(0, &[]).unwrap());
    assert_eq!(replies.len(), 2);
    assert_eq!(decode_frame(&replies[0]).unwrap().payload, vec![0, 0, 0, 1]);
    assert_eq!(decode_frame(&replies[1]).unwrap().payload, vec![3, 3, 3]);
    let replies = store.on_message(2, &encode_frame(0, &[]).unwrap());
    assert_eq!(replies.len(), 4);
    assert!(store.on_message(2, &encode_frame(2, &[9]).unwrap()).is_empty());
    assert!(store.on_message(2, &[0, 0]).is_empty());
    assert_eq!(store.corpus.len(), 3);
}
