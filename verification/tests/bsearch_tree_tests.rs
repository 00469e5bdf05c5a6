use data_structures::bsearch_tree::BSearchTree;

#[test]
fn test_leaf() {
    let tree: BSearchTree = BSearchTree::Leaf(12);

    assert_eq!(tree.count(), 1);
    assert_eq!(tree.height(), 1);
    assert_eq!(tree.minimum(), Some(&BSearchTree::Leaf(12)));
    assert_eq!(tree.maximum(), Some(&BSearchTree::Leaf(12)));
}

#[test]
fn test_test_insert() {
    let mut tree: BSearchTree = BSearchTree::Leaf(8);

    tree = tree.insert(5);
    tree = tree.insert(4);
    tree = tree.insert(6);
    tree = tree.insert(11);
    tree = tree.insert(13);
    tree = tree.insert(9);
    tree = tree.insert(14);

    assert_eq!(tree.count(), 8);
    assert_eq!(tree.height(), 4);
    assert_eq!(tree.minimum(), Some(&BSearchTree::Leaf(4)));
    assert_eq!(tree.maximum(), Some(&BSearchTree::Leaf(14)));

    let node1 = tree.search(11).unwrap();
    assert_eq!(node1.value(), Some(&11));

    let node2 = tree.search(12);
    assert_eq!(node2, None);
    assert!(tree.contains(13));
    assert!(!tree.contains(15));
}

struct Writer {
    buf: Vec<i64>,
}

impl Writer {
    fn append(&mut self, value: i64) {
        self.buf.push(value);
    }

    fn flush(&mut self) -> Vec<i64> {
        self.buf.drain(..).collect()
    }
}

fn in_order_traverse(tree: &BSearchTree, result: &mut Writer) {
    match *tree {
        BSearchTree::Empty => (),
        BSearchTree::Leaf(val) => result.append(val),
        BSearchTree::Node(ref left, val, ref right) => {
            in_order_traverse(left, result);
            result.append(val);
            in_order_traverse(right, result);
        }
    }
}

#[test]
fn test_in_order() {
    let mut tree: BSearchTree = BSearchTree::Leaf(8);

    tree = tree.insert(5);
    tree = tree.insert(4);
    tree = tree.insert(6);
    tree = tree.insert(11);
    tree = tree.insert(13);
    tree = tree.insert(9);
    tree = tree.insert(14);

    let mut result = Writer { buf: Vec::new() };
    in_order_traverse(&tree, &mut result);
    assert_eq!(result.flush(), vec![4, 5, 6, 8, 9, 11, 13, 14]);
}
