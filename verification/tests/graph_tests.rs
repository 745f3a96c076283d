use microgpt::graph::{topo_order, Tape};

#[test]
fn topo_order_of_a_chain() {
    // 2 -> 1 -> 0
    let children = vec![vec![], vec![0], vec![1]];
    assert_eq!(topo_order(&children, 2), vec![0, 1, 2]);
}

#[test]
fn topo_order_of_a_diamond_lists_each_node_once() {
    // 3 uses 1 and 2, both use 0
    let children = vec![vec![], vec![0], vec![0], vec![1, 2]];
    assert_eq!(topo_order(&children, 3), vec![0, 1, 2, 3]);
}

#[test]
fn topo_order_repeated_child() {
    // x * x: node 1 lists node 0 twice
    let children = vec![vec![], vec![0, 0]];
    assert_eq!(topo_order(&children, 1), vec![0, 1]);
}

#[test]
fn topo_order_skips_unreachable_nodes() {
    let children = vec![vec![], vec![], vec![1], vec![0, 2]];
    assert_eq!(topo_order(&children, 2), vec![1, 2]);
    assert_eq!(topo_order(&children, 3), vec![0, 1, 2, 3]);
    assert_eq!(topo_order(&children, 0), vec![0]);
}

#[test]
fn topo_order_follows_child_order_depth_first() {
    // children visited in list order, deepest first
    let children = vec![vec![], vec![], vec![1, 0], vec![2, 1], vec![3, 0]];
    assert_eq!(topo_order(&children, 4), vec![1, 0, 2, 3, 4]);
}

#[test]
fn topo_order_terminates_on_a_cycle() {
    let children = vec![vec![1], vec![0]];
    assert_eq!(topo_order(&children, 0), vec![1, 0]);
}

#[test]
fn tape_builds_and_orders() {
    let mut tape = Tape::new();
    let a = tape.add_node(vec![]);
    let b = tape.add_node(vec![]);
    let ab = tape.add_node(vec![a, b]);
    let c = tape.add_node(vec![ab, a]);
    assert_eq!((a, b, ab, c), (0, 1, 2, 3));
    assert_eq!(tape.len(), 4);
    assert_eq!(tape.children(ab), &vec![0, 1]);
    let order = tape.topo_order(c);
    assert_eq!(order, vec![0, 1, 2, 3]);
    for (i, &u) in order.iter().enumerate() {
        for &ch in tape.children(u) {
            let pos = order.iter().position(|&x| x == ch).unwrap();
            assert!(pos < i);
        }
    }
}

#[test]
fn tape_truncate_keeps_prefix() {
    let mut tape = Tape::new();
    let a = tape.add_node(vec![]);
    let b = tape.add_node(vec![a]);
    let _c = tape.add_node(vec![b]);
    tape.truncate(2);
    assert_eq!(tape.len(), 2);
    tape.truncate(5);
    assert_eq!(tape.len(), 2);
    let d = tape.add_node(vec![b]);
    assert_eq!(d, 2);
    assert_eq!(tape.topo_order(d), vec![0, 1, 2]);
}
