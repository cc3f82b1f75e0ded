use algokit::table::{MapError, Table};
use algokit::tree::Node;

#[test]
fn basics() {
    let mut map = Table::new("zero".to_string(), 0);

    map.insert("one".to_string(), 1).unwrap();
    map.insert("foo".to_string(), 100).unwrap();
    map.delete("foo".to_string()).unwrap();

    assert_eq!(None, map.get_value("foo".to_string()));
    assert_eq!(Some(&1), map.get_value("one".to_string()));

    assert_eq!(
        Err(MapError::RepeatedKey),
        map.insert("one".to_string(), 40)
    );
    assert_eq!(Err(MapError::NoKey), map.delete("xyz".to_string()));
}

#[test]
fn table_from_pairs() {
    let t = Table::from(vec!["a".to_string(), "b".to_string()], vec![1, 2]).unwrap();
    assert_eq!(2, t.len());
    assert_eq!(Some(&2), t.get_value("b".to_string()));

    let bad = Table::from(vec!["a".to_string()], vec![1, 2]);
    assert!(matches!(bad, Err(MapError::DifferentLenght)));
}

#[test]
fn table_views() {
    let mut t = Table::new("k".to_string(), 7);
    t.insert("m".to_string(), 9).unwrap();
    assert_eq!(&vec!["k".to_string(), "m".to_string()], t.keys());
    assert_eq!(&vec![7, 9], t.values());
}

#[test]
fn transversal() {
    let mut tree = Node::new(1);
    tree.insert(2);
    tree.insert(3);
    tree.insert(4);
    tree.insert(5);
    tree.insert(6);
    tree.insert(7);
    let mut result = Vec::new();

    tree.inorder(&mut result);
    assert_eq!(vec![4, 2, 5, 1, 6, 3, 7], result);

    result.clear();
    tree.preorder(&mut result);
    assert_eq!(vec![1, 2, 4, 5, 3, 6, 7], result);

    result.clear();
    tree.postorder(&mut result);
    assert_eq!(vec![4, 5, 2, 6, 7, 3, 1], result);

    result.clear();
    tree.levelorder(&mut result);
    assert_eq!(vec![1, 2, 3, 4, 5, 6, 7], result);

    assert_eq!(3, tree.depth());
}

#[test]
fn macro_test() {
    let mut x = Node::new(1);

    x.insert(2);
    x.insert(3);

    let mut macro_x = Node::new(1);
    macro_x.insert(2);
    macro_x.insert(3);
    assert_eq!(x, macro_x);

    assert_eq!(2, x.depth());
}

#[test]
fn tree_basics() {
    let mut tree = Node::new(1);
    tree.insert(2);
    tree.insert(3);
    tree.insert(4);
    tree.insert(5);

    assert_eq!(Some(3), tree.find(3));
    assert_eq!(None, tree.find(42));

    tree.delete(3);
    assert_eq!(None, tree.find(3));
}
