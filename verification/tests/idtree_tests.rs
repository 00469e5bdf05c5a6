use std::cell::Cell;

use data_structures::idtree::Arena;
use data_structures::idtree::NodeEdge;
use data_structures::idtree::NodeId;

struct DropCheck<'a>(&'a Cell<usize>);

impl<'a> Drop for DropCheck<'a> {
    fn drop(&mut self) {
        self.0.set(self.0.get() + 1);
    }
}

fn payloads(arena: &Arena<(usize, DropCheck)>, ids: &[NodeId]) -> Vec<usize> {
    ids.iter().map(|id| arena.get(*id).data.0).collect()
}

#[test]
fn tree_works() {
    let drop_counter = Cell::new(0);

    {
        let mut arena: Arena<(usize, DropCheck)> = Arena::new();

        let node1 = arena.new_node((1, DropCheck(&drop_counter)));
        let node2 = arena.new_node((2, DropCheck(&drop_counter)));
        let node3 = arena.new_node((3, DropCheck(&drop_counter)));
        let node4 = arena.new_node((4, DropCheck(&drop_counter)));
        let node5 = arena.new_node((5, DropCheck(&drop_counter)));
        let node6 = arena.new_node((6, DropCheck(&drop_counter)));
        let node7 = arena.new_node((7, DropCheck(&drop_counter)));
        let node8 = arena.new_node((8, DropCheck(&drop_counter)));
        let node9 = arena.new_node((9, DropCheck(&drop_counter)));
        let node10 = arena.new_node((10, DropCheck(&drop_counter)));

        node1.append(&mut arena, node2);
        node1.append(&mut arena, node3);
        node1.prepend(&mut arena, node4);
        node5.append(&mut arena, node1);
        node1.insert_before(&mut arena, node6);
        node1.insert_before(&mut arena, node7);
        node1.insert_after(&mut arena, node8);
        node1.insert_after(&mut arena, node9);
        node5.append(&mut arena, node10);

        let mut tree_array = payloads(&arena, &node5.descendants(&arena));
        assert_eq!(tree_array, [5, 6, 7, 1, 4, 2, 3, 9, 8, 10]);

        node1.detach(&mut arena);
        tree_array = payloads(&arena, &node5.descendants(&arena));
        assert_eq!(tree_array, [5, 6, 7, 9, 8, 10]);

        assert_eq!(arena.get(node7).parent(), Some(node5));
        assert_eq!(arena.get(node7).next_sibling(), Some(node9));
        assert_eq!(arena.get(node7).previous_sibling(), Some(node6));
        assert_eq!(arena.get(node5).first_child(), Some(node6));
        assert_eq!(arena.get(node5).last_child(), Some(node10));

        let children = payloads(&arena, &node5.children(&arena));
        assert_eq!(children, [6, 7, 9, 8, 10]);

        let reverse_children = payloads(&arena, &node5.reverse_children(&arena));
        assert_eq!(reverse_children, [10, 8, 9, 7, 6]);

        let preceding_siblings = payloads(&arena, &node8.preceding_siblings(&arena));
        assert_eq!(preceding_siblings, [8, 9, 7, 6]);

        let following_siblings = payloads(&arena, &node6.following_siblings(&arena));
        assert_eq!(following_siblings, [6, 7, 9, 8, 10]);

        node8.insert_after(&mut arena, node1);
        tree_array = payloads(&arena, &node5.descendants(&arena));
        assert_eq!(tree_array, [5, 6, 7, 9, 8, 1, 4, 2, 3, 10]);

        let ancestors = payloads(&arena, &node2.ancestors(&arena));
        assert_eq!(ancestors, [2, 1, 5]);
    }
    assert_eq!(drop_counter.get(), 10);
}

#[test]
fn test_find() {
    let mut arena: Arena<usize> = Arena::new();

    let node1 = arena.new_node(1);
    let node2 = arena.new_node(2);
    let node3 = arena.new_node(3);
    let node4 = arena.new_node(4);
    let node5 = arena.new_node(5);
    let node6 = arena.new_node(6);
    let node7 = arena.new_node(7);
    let node8 = arena.new_node(8);
    let node9 = arena.new_node(9);
    let node10 = arena.new_node(10);

    node1.append(&mut arena, node2);
    node1.append(&mut arena, node3);
    node1.prepend(&mut arena, node4);
    node5.append(&mut arena, node1);
    node1.insert_before(&mut arena, node6);
    node1.insert_before(&mut arena, node7);
    node1.insert_after(&mut arena, node8);
    node1.insert_after(&mut arena, node9);
    node5.append(&mut arena, node10);

    let _ = (node3, node7);
    let node_1 = node5.find_node(&arena, 1).unwrap();
    assert_eq!(node1, node_1);
    let node_2 = node5.find_node(&arena, 2).unwrap();
    assert_eq!(node_2, node2);
    let node_11 = node5.find_node(&arena, 11);
    assert!(node_11.is_none());
}

#[test]
fn test_fresh_node_is_detached() {
    let mut arena: Arena<u32> = Arena::new();
    let root = arena.new_node(0);

    assert!(arena.get(root).parent().is_none());
    assert!(arena.get(root).first_child().is_none());
    assert!(arena.get(root).last_child().is_none());
    assert!(arena.get(root).previous_sibling().is_none());
    assert!(arena.get(root).next_sibling().is_none());
    assert_eq!(arena.get(root).data, 0);
}

#[test]
fn test_detach_idempotent() {
    let mut arena: Arena<u32> = Arena::new();
    let root = arena.new_node(0);
    let a = arena.new_node(1);
    let b = arena.new_node(2);
    root.append(&mut arena, a);
    root.append(&mut arena, b);

    a.detach(&mut arena);
    let snapshot: Vec<(Option<NodeId>, Option<NodeId>, Option<NodeId>, Option<NodeId>, Option<
        NodeId,
    >)> = [root, a, b]
        .iter()
        .map(
            |id| {
                let n = arena.get(*id);
                (
                    n.parent(),
                    n.previous_sibling(),
                    n.next_sibling(),
                    n.first_child(),
                    n.last_child(),
                )
            },
        )
        .collect();

    a.detach(&mut arena);
    let again: Vec<_> = [root, a, b]
        .iter()
        .map(
            |id| {
                let n = arena.get(*id);
                (
                    n.parent(),
                    n.previous_sibling(),
                    n.next_sibling(),
                    n.first_child(),
                    n.last_child(),
                )
            },
        )
        .collect();
    assert_eq!(snapshot, again);
}

#[test]
fn test_children_mirror_reverse_children() {
    let mut arena: Arena<u32> = Arena::new();
    let root = arena.new_node(0);
    let kids: Vec<NodeId> = (1..6).map(|v| arena.new_node(v)).collect();
    for k in &kids {
        root.append(&mut arena, *k);
    }
    // one edit of every kind, then the two walks must mirror each other
    kids[2].detach(&mut arena);
    root.prepend(&mut arena, kids[2]);
    kids[0].insert_before(&mut arena, kids[4]);
    kids[1].insert_after(&mut arena, kids[3]);

    let forward = root.children(&arena);
    let mut backward = root.reverse_children(&arena);
    backward.reverse();
    assert_eq!(forward, backward);
}

#[test]
fn test_descendants_visit_once() {
    let mut arena: Arena<u32> = Arena::new();
    let root = arena.new_node(0);
    let mut all = vec![root];
    for v in 1..4 {
        let c = arena.new_node(v);
        root.append(&mut arena, c);
        all.push(c);
        for w in 0..3 {
            let g = arena.new_node(10 * v + w);
            c.append(&mut arena, g);
            all.push(g);
        }
    }
    let visited = root.descendants(&arena);
    assert_eq!(visited.len(), all.len());
    for id in &all {
        assert_eq!(visited.iter().filter(|x| **x == *id).count(), 1);
    }
}

#[test]
fn test_traverse_edges() {
    let mut arena: Arena<u32> = Arena::new();
    let root = arena.new_node(0);
    let a = arena.new_node(1);
    let b = arena.new_node(2);
    let c = arena.new_node(3);
    root.append(&mut arena, a);
    root.append(&mut arena, b);
    a.append(&mut arena, c);

    let mut walk = root.traverse(&arena);
    let mut edges = Vec::new();
    while let Some(edge) = walk.next(&arena) {
        edges.push(edge);
    }
    assert_eq!(
        edges,
        vec![
            NodeEdge::Start(root),
            NodeEdge::Start(a),
            NodeEdge::Start(c),
            NodeEdge::End(c),
            NodeEdge::End(a),
            NodeEdge::Start(b),
            NodeEdge::End(b),
            NodeEdge::End(root),
        ],
    );
}
