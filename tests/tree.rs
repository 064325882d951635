use libps::tree::{init_tree, to_digit, TreeNode};

#[test]
fn test_init_tree_1() {
    let tree = init_tree(String::from("[1,2]")).unwrap();
    let first = tree.nodes[0].children[0];
    assert_eq!(tree.nodes[first].value.unwrap(), 1);
}

#[test]
fn tree_prints_back_its_text() {
    let tree = init_tree(String::from("[1,2]")).unwrap();
    assert_eq!(tree.nodes[0].print(&tree), "[1,2]");
    let nested = init_tree(String::from("[[1,2],3,[]]")).unwrap();
    assert_eq!(nested.nodes[0].print(&nested), "[[1,2],3,[]]");
    assert_eq!(nested.nodes.len(), 6);
    assert_eq!(nested.nodes[2].parent, Some(1));
}

#[test]
fn tree_of_empty_brackets_is_a_lone_root() {
    let tree = init_tree(String::from("[]")).unwrap();
    assert_eq!(tree.nodes.len(), 1);
    assert_eq!(tree.nodes[0].print(&tree), "[]");
    let short = init_tree(String::from("")).unwrap();
    assert_eq!(short.nodes.len(), 1);
}

#[test]
fn adjacent_digits_nest() {
    let tree = init_tree(String::from("[12]")).unwrap();
    assert_eq!(tree.nodes[1].value, Some(1));
    assert_eq!(tree.nodes[1].children, vec![2]);
    assert_eq!(tree.nodes[2].value, Some(2));
    assert_eq!(tree.nodes[0].print(&tree), "[1]");
}

#[test]
fn non_ascii_numeric_opens_a_node_without_value() {
    let tree = init_tree(String::from("[\u{bd}]")).unwrap();
    assert_eq!(tree.nodes.len(), 2);
    assert_eq!(tree.nodes[1].value, None);
    assert_eq!(tree.nodes[0].print(&tree), "[[]]");
}

#[test]
fn bad_text_gives_no_tree() {
    assert!(init_tree(String::from("[a]")).is_none());
    assert!(init_tree(String::from("[1,,2]")).is_none());
    assert!(init_tree(String::from("[]]]")).is_none());
}

#[test]
fn digits_convert() {
    assert_eq!(to_digit('0'), Some(0));
    assert_eq!(to_digit('7'), Some(7));
    assert_eq!(to_digit('a'), None);
    assert_eq!(to_digit('\u{bd}'), None);
}

#[test]
fn built_node_prints_large_values() {
    let tree = init_tree(String::from("[]")).unwrap();
    let mut node = TreeNode::new();
    assert_eq!(node.print(&tree), "[]");
    node.value = Some(4096);
    assert_eq!(node.print(&tree), "4096");
    let mut parent = TreeNode::new();
    parent.add_child(0);
    assert_eq!(parent.children, vec![0]);
    assert_eq!(parent.print(&tree), "[[]]");
}
