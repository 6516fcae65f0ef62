use daybook::tree_node::TreeNode;

#[test]
fn insert_adds_along_the_path() {
    let mut tree = TreeNode::new();
    tree.insert(b"work", b"code", b"backend", 100);
    tree.insert(b"work", b"code", b"review", 50);
    tree.insert(b"work", b"mail", b"inbox", 25);
    tree.insert(b"health", b"food", b"lunch", 10);
    tree.insert(b"work", b"code", b"backend", 5);
    assert_eq!(tree.value, 190);
    assert_eq!(tree.keys, vec![b"health".to_vec(), b"work".to_vec()]);
    let work = &tree.children[1];
    assert_eq!(work.value, 180);
    assert_eq!(work.keys, vec![b"code".to_vec(), b"mail".to_vec()]);
    let code = &work.children[0];
    assert_eq!(code.value, 155);
    assert_eq!(code.keys, vec![b"backend".to_vec(), b"review".to_vec()]);
    assert_eq!(code.children[0].value, 105);
    assert_eq!(code.children[1].value, 50);
    assert!(code.children[0].children.is_empty());
    assert_eq!(tree.children[0].value, 10);
}

#[test]
fn every_node_is_the_sum_of_its_children() {
    let mut tree = TreeNode::new();
    let tags: [(&[u8], &[u8], &[u8], u64); 6] = [
        (b"a", b"x", b"1", 3),
        (b"a", b"x", b"2", 4),
        (b"a", b"y", b"1", 5),
        (b"b", b"x", b"1", 6),
        (b"a", b"x", b"1", 7),
        (b"b", b"z", b"9", 0),
    ];
    for (major, minor, activity, seconds) in tags {
        tree.insert(major, minor, activity, seconds);
    }
    fn check(node: &TreeNode, depth: u32) {
        assert_eq!(node.keys.len(), node.children.len());
        if depth == 0 {
            assert!(node.children.is_empty());
        } else {
            assert_eq!(node.value, node.children.iter().map(|c| c.value).sum::<u128>());
            for child in &node.children {
                check(child, depth - 1);
            }
        }
    }
    check(&tree, 3);
    assert_eq!(tree.value, 25);
}

#[test]
fn insert1_and_insert2_work_below_the_root() {
    let mut minor = TreeNode::new();
    minor.insert1(b"backend", 7);
    minor.insert1(b"backend", 3);
    minor.insert1(b"review", 1);
    assert_eq!(minor.value, 11);
    assert_eq!(minor.children[0].value, 10);
    let mut major = TreeNode::new();
    major.insert2(b"code", b"backend", 2);
    major.insert2(b"mail", b"inbox", 3);
    assert_eq!(major.value, 5);
    assert_eq!(major.keys, vec![b"code".to_vec(), b"mail".to_vec()]);
    assert_eq!(major.children[1].children[0].value, 3);
}

#[test]
fn lookups_and_sorted_keys() {
    let mut tree = TreeNode::new();
    tree.insert(b"work", b"code", b"backend", 100);
    tree.insert(b"health", b"food", b"lunch", 10);
    tree.insert(b"chore", b"home", b"dishes", 1);
    tree.insert(b"Work", b"code", b"backend", 1);
    assert_eq!(tree.position(b"health"), Some(2));
    assert_eq!(tree.position(b"play"), None);
    assert_eq!(tree.child_seconds(b"work"), 100);
    assert_eq!(tree.child_seconds(b"play"), 0);
    assert_eq!(
        tree.sorted_keys(),
        vec![b"Work".to_vec(), b"chore".to_vec(), b"health".to_vec(), b"work".to_vec()]
    );
}
