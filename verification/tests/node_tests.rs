use art_rs::{Leaf, Node, Node16, Node4};

#[test]
fn test_add_child4() {
    let mut node4 = Node4::new();
    // add first child
    node4.add_child(Node::Empty, Some(1));
    node4.add_child(Node::Empty, Some(4));
    node4.add_child(Node::Empty, Some(2));
    node4.add_child(Node::Empty, Some(3));

    let keys: Vec<u8> = (1..5).collect();
    let nodes = vec![Node::Empty, Node::Empty, Node::Empty, Node::Empty];
    let res: Vec<(Option<u8>, &Node)> = keys
        .iter()
        .zip(nodes.iter())
        .map(|x| (Some(*x.0), x.1))
        .collect();
    assert_eq!(node4.children(), res);
}

#[test]
fn test_add_leaf() {
    let mut node4 = Node4::new();
    println!("&node4 = {:#?}", &node4);
    // add first child
    node4.add_child(Node::Empty, Some(1));
    println!("&node4 = {:#?}", &node4);
    // leaf
    let k = "1".as_bytes().to_vec();
    let leaf = Node::Leaf(Leaf::new(k.clone(), k));
    node4.add_child(leaf, None);
    // another child
    node4.add_child(Node::Empty, Some(4));

    let keys: Vec<u8> = vec![1, 4];
    let nodes = vec![&Node::Empty; 2];
    assert_eq!(node4.keys(), keys);
    assert_eq!(node4.outgoing_children(), nodes);
}

#[test]
fn test_vec_sorting_by_node() {
    let mut items = Vec::new();
    items.push((1, Node::Empty));
    items.push((3, Node::Empty));
    items.push((2, Node::Empty));
    items.push((4, Node::Empty));

    items.sort_unstable_by(|a, b| a.0.cmp(&b.0));

    println!("&items = {:#?}", &items);
}

#[test]
fn test_display_string() {
    let mut node4 = Node4::new();
    node4.add_child(Node::Empty, Some(1));
    node4.add_child(Node::Empty, Some(4));
    node4.add_child(Node::Empty, Some(2));
    node4.add_child(Node::Empty, Some(3));
    let chars = vec![1, 2, 3, 4]
        .iter()
        .map(|i| *i as u8 as char)
        .collect::<Vec<char>>();
    let match_str = format!(
        "Node4(4) [1, 2, 3, 4] {chars:?} (false) - (0) [[]]",
        chars = chars
    );
    let node_str = node4.display_string();
    assert_eq!(match_str, node_str);

    let k = "1".as_bytes().to_vec();
    let leaf = Node::Leaf(Leaf::new(k.clone(), k));
    node4.add_child(leaf, None);
    let match_str = format!(
        "Node4(5) [1, 2, 3, 4] {chars:?} (true) - (0) [[]]",
        chars = chars
    );
    let node_str = node4.display_string();
    assert_eq!(match_str, node_str);
}

#[test]
fn node16_test_child_at() {
    let mut node16 = Node16::new();
    node16.add_child(Node::Empty, Some(1));
    println!("&node16 = {:#?}", &node16);
}
