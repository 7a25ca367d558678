use art_rs::{Art, Node};

#[test]
fn empty_key_at_root() {
    let mut art = Art::new();
    art.insert(b"".to_vec(), b"empty".to_vec());
    assert_eq!(art.len(), 1);
    assert_eq!(art.search(b""), Some(&b"empty"[..]));
    art.insert(b"A".to_vec(), b"a".to_vec());
    assert_eq!(art.len(), 2);
    assert_eq!(art.search(b""), Some(&b"empty"[..]));
    assert_eq!(art.search(b"A"), Some(&b"a"[..]));
}

#[test]
fn key_strict_prefix_of_other() {
    let mut art = Art::new();
    art.insert(b"A".to_vec(), b"1".to_vec());
    art.insert(b"AMD".to_vec(), b"2".to_vec());
    assert_eq!(art.len(), 2);
    assert_eq!(art.search(b"A"), Some(&b"1"[..]));
    assert_eq!(art.search(b"AMD"), Some(&b"2"[..]));
    // "A" hangs off the terminal-leaf edge, "AMD" off a label edge
    match &art.root {
        Node::Node4(n) => {
            assert!(n.term_leaf().is_some());
            assert!(n.child_at(b'M').is_some());
        }
        other => panic!("root should be a Node4, got {:?}", other),
    }
}

#[test]
fn long_shared_prefix_past_inline_bytes() {
    let mut art = Art::new();
    let a20 = "A".repeat(20).into_bytes();
    let a10 = "A".repeat(10).into_bytes();
    art.insert(a20.clone(), b"twenty".to_vec());
    art.insert(a10.clone(), b"ten".to_vec());
    assert_eq!(art.len(), 2);
    assert_eq!(art.search(&a20), Some(&b"twenty"[..]));
    assert_eq!(art.search(&a10), Some(&b"ten"[..]));
    match &art.root {
        Node::Node4(n) => {
            assert_eq!(n.prefix_len(), 10);
            assert_eq!(n.partial(), "A".repeat(8).as_bytes());
        }
        other => panic!("root should be a Node4, got {:?}", other),
    }
}

#[test]
fn two_single_byte_keys() {
    let mut art = Art::new();
    art.insert(b"a".to_vec(), b"1".to_vec());
    art.insert(b"z".to_vec(), b"2".to_vec());
    assert_eq!(art.len(), 2);
    match &art.root {
        Node::Node4(n) => {
            assert!(n.term_leaf().is_none());
            assert_eq!(n.keys(), vec![b'a', b'z']);
        }
        other => panic!("root should be a Node4, got {:?}", other),
    }
}

#[test]
fn scenario_amd_family() {
    let mut art = Art::new();
    for item in ["A", "AMD", "AMDs"] {
        art.insert(item.as_bytes().to_vec(), item.as_bytes().to_vec());
    }
    assert_eq!(art.len(), 3);
    for item in ["A", "AMD", "AMDs"] {
        assert_eq!(art.search(item.as_bytes()), Some(item.as_bytes()));
    }
    assert_eq!(art.search(b"AM"), None);
    assert_eq!(art.search(b"AMDX"), None);
    match &art.root {
        Node::Node4(n) => {
            assert!(n.child_at(b'M').is_some());
            assert!(n.term_leaf().is_some());
        }
        other => panic!("root should be a Node4, got {:?}", other),
    }
}

#[test]
fn scenario_bmd_family() {
    let mut art = Art::new();
    for item in ["BMD", "BMDs", "BMBs"] {
        art.insert(item.as_bytes().to_vec(), item.as_bytes().to_vec());
    }
    assert_eq!(art.len(), 3);
    for item in ["BMD", "BMDs", "BMBs"] {
        assert_eq!(art.search(item.as_bytes()), Some(item.as_bytes()));
    }
    match &art.root {
        Node::Node4(n) => {
            assert_eq!(n.prefix_len(), 2);
            assert_eq!(n.partial(), &[b'B', b'M'][..]);
            assert_eq!(n.keys(), vec![b'B', b'D']);
            match n.child_at(b'B') {
                Some(Node::Leaf(l)) => assert_eq!(l.key, b"BMBs".to_vec()),
                other => panic!("child at B should be the BMBs leaf, got {:?}", other),
            }
            match n.child_at(b'D') {
                Some(Node::Node4(_)) => {}
                other => panic!("child at D should be an inner node, got {:?}", other),
            }
        }
        other => panic!("root should be a Node4, got {:?}", other),
    }
}

#[test]
fn scenario_congo_family() {
    let words = [
        "Congo",
        "Congregationalist",
        "Congregationalist's",
        "Congregationalists",
    ];
    let mut art = Art::new();
    for item in words {
        art.insert(item.as_bytes().to_vec(), item.as_bytes().to_vec());
    }
    assert_eq!(art.len(), 4);
    for item in words {
        assert_eq!(art.search(item.as_bytes()), Some(item.as_bytes()));
    }
}

#[test]
fn scenario_million_decimal_keys() {
    let mut art = Art::new();
    for i in 0..1_000_000u32 {
        let key = i.to_string().into_bytes();
        art.insert(key.clone(), key);
    }
    assert_eq!(art.len(), 1_000_000);
    for i in (0..1_000_000u32).step_by(997) {
        let key = i.to_string().into_bytes();
        assert_eq!(art.search(&key), Some(&key[..]));
    }
    assert_eq!(art.search(b"1000000"), None);
}

#[test]
fn five_labels_force_growth() {
    let mut art = Art::new();
    let items: Vec<Vec<u8>> = (b'a'..=b'e').map(|c| vec![c]).collect();
    for item in &items {
        art.insert(item.clone(), item.clone());
    }
    assert_eq!(art.len(), 5);
    for item in &items {
        assert_eq!(art.search(item), Some(&item[..]));
    }
    match &art.root {
        Node::Node16(n) => assert_eq!(n.keys().len(), 5),
        other => panic!("root should have grown to a Node16, got {:?}", other),
    }
}

#[test]
fn reinsert_same_pair_keeps_len() {
    let mut art = Art::new();
    art.insert(b"key".to_vec(), b"val".to_vec());
    art.insert(b"key".to_vec(), b"val".to_vec());
    assert_eq!(art.len(), 1);
    assert_eq!(art.search(b"key"), Some(&b"val"[..]));
}

#[test]
fn reinsert_replaces_value() {
    let mut art = Art::new();
    art.insert(b"A".to_vec(), b"A".to_vec());
    art.insert(b"A".to_vec(), b"B".to_vec());
    assert_eq!(art.len(), 1);
    assert_eq!(art.search(b"A"), Some(&b"B"[..]));
}

#[test]
fn insertion_order_does_not_matter() {
    let words = ["daddy", "dagger", "daguerreotype", "dag", ""];
    let mut forward = Art::new();
    for item in words {
        forward.insert(item.as_bytes().to_vec(), item.as_bytes().to_vec());
    }
    let mut backward = Art::new();
    for item in words.iter().rev() {
        backward.insert(item.as_bytes().to_vec(), item.as_bytes().to_vec());
    }
    assert_eq!(forward.len(), backward.len());
    for item in words {
        assert_eq!(forward.search(item.as_bytes()), backward.search(item.as_bytes()));
        assert_eq!(forward.search(item.as_bytes()), Some(item.as_bytes()));
    }
}

#[test]
fn same_length_keys_are_distinguished() {
    // would fail if the byte comparison reported equal slices as different
    // or different slices as equal
    let mut art = Art::new();
    art.insert(b"AMX".to_vec(), b"v".to_vec());
    assert_eq!(art.search(b"AMD"), None);
    assert_eq!(art.search(b"AMX"), Some(&b"v"[..]));
}

#[test]
fn empty_tree_behaviour() {
    let art = Art::new();
    assert!(art.is_empty());
    assert_eq!(art.len(), 0);
    assert_eq!(art.search(b"anything"), None);
    assert_eq!(art.search(b""), None);
}

#[test]
fn key_ending_inside_compressed_prefix() {
    // the new key runs out inside the compressed prefix, so the split
    // hangs it off the fresh node's terminal-leaf edge
    let mut art = Art::new();
    art.insert(b"AMD".to_vec(), b"1".to_vec());
    art.insert(b"AMDs".to_vec(), b"2".to_vec());
    art.insert(b"AM".to_vec(), b"3".to_vec());
    assert_eq!(art.len(), 3);
    assert_eq!(art.search(b"AMD"), Some(&b"1"[..]));
    assert_eq!(art.search(b"AMDs"), Some(&b"2"[..]));
    assert_eq!(art.search(b"AM"), Some(&b"3"[..]));
    assert_eq!(art.search(b"A"), None);
    match &art.root {
        Node::Node4(n) => {
            assert_eq!(n.prefix_len(), 2);
            assert!(n.term_leaf().is_some());
        }
        other => panic!("root should be a Node4, got {:?}", other),
    }
}

#[test]
fn split_past_inline_bytes_uses_leaf() {
    // the divergence lies beyond MAX_PREFIX, so the split must recover
    // the pivot byte and the new inline prefix from a descendant leaf
    let mut art = Art::new();
    let k1 = b"AAAAAAAAAAAB".to_vec();
    let k2 = b"AAAAAAAAAAAC".to_vec();
    let k3 = b"AAAAAAAAAXYZ".to_vec();
    art.insert(k1.clone(), b"1".to_vec());
    art.insert(k2.clone(), b"2".to_vec());
    match &art.root {
        Node::Node4(n) => assert_eq!(n.prefix_len(), 11),
        other => panic!("root should be a Node4, got {:?}", other),
    }
    art.insert(k3.clone(), b"3".to_vec());
    assert_eq!(art.len(), 3);
    assert_eq!(art.search(&k1), Some(&b"1"[..]));
    assert_eq!(art.search(&k2), Some(&b"2"[..]));
    assert_eq!(art.search(&k3), Some(&b"3"[..]));
    assert_eq!(art.search(b"AAAAAAAAA"), None);
}

#[test]
fn node256_counts_edges() {
    let mut art = Art::new();
    for key in 65u8..85 {
        art.insert(vec![key], vec![key]);
    }
    match &art.root {
        Node::Node256(n) => {
            assert_eq!(n.len(), 20);
            assert_eq!(n.keys(), (65u8..85).collect::<Vec<u8>>());
            assert_eq!(n.children().len(), 20);
        }
        other => panic!("root should have grown to a Node256, got {:?}", other),
    }
}
