use kon_rs::algorithm::PermutationTraverser;

#[test]
fn permutation_treverser_simple() {
    let mut traverser = PermutationTraverser::new(1, 1);
    let mut sub_tree = traverser.allocate().unwrap();
    assert_eq!(sub_tree.next().unwrap().current(), [0]);
}

#[test]
fn single_tree() {
    let mut traverser = PermutationTraverser::new(3, 3);
    let mut sub_tree = traverser.allocate().unwrap();
    assert_eq!(sub_tree.next().unwrap().current(), [0, 1, 2]);
    assert_eq!(sub_tree.next().unwrap().current(), [0, 2, 1]);
    assert_eq!(sub_tree.next().unwrap().current(), [1, 0, 2]);
    assert_eq!(sub_tree.next().unwrap().current(), [1, 2, 0]);
    assert_eq!(sub_tree.next().unwrap().current(), [2, 0, 1]);
    assert_eq!(sub_tree.next().unwrap().current(), [2, 1, 0]);

    assert!(traverser.allocate().is_none());
}

#[test]
fn multi_tree() {
    let mut traverser = PermutationTraverser::new(3, 2);
    let mut sub_tree_0 = traverser.allocate().unwrap();
    assert_eq!(sub_tree_0.next().unwrap().current(), [0, 1, 2]);
    assert_eq!(sub_tree_0.next().unwrap().current(), [0, 2, 1]);

    let mut sub_tree_1 = traverser.allocate().unwrap();
    assert_eq!(sub_tree_1.next().unwrap().current(), [1, 0, 2]);
    assert_eq!(sub_tree_1.next().unwrap().current(), [1, 2, 0]);

    let mut sub_tree_2 = traverser.allocate().unwrap();
    assert_eq!(sub_tree_2.next().unwrap().current(), [2, 0, 1]);
    assert_eq!(sub_tree_2.next().unwrap().current(), [2, 1, 0]);

    assert!(traverser.allocate().is_none());
}
