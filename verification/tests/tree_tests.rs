use seq_crdt::keys::NodeKey;
use seq_crdt::node_crdt::{NodeCRDT, Position};
use seq_crdt::side::Side;
use seq_crdt::store::Doc;
use seq_crdt::tree_crdt::TreeCRDT;

fn from_digits(digits: &[u32]) -> Vec<Position> {
    digits
        .iter()
        .map(|digit| Position {
            digit: *digit,
            peer_id: 0,
            time: 0,
        })
        .collect()
}

fn to_path(id: &[NodeKey]) -> Vec<Position> {
    id.iter()
        .map(|k| Position {
            digit: k.digit,
            peer_id: k.peer_id,
            time: k.time,
        })
        .collect()
}

#[test]
fn lib_id_test() {
    let mut this_side = Side::new(123); // represents this replica
    let mut doc = Doc::new();
    let p: Vec<NodeKey> = vec![
        NodeKey { digit: 0, peer_id: 0, time: 0 },
        NodeKey { digit: u32::MAX, peer_id: 0, time: 0 },
    ];
    let q: Vec<NodeKey> = vec![NodeKey { digit: 1, peer_id: 0, time: 0 }];
    let id = doc.generate_id(&p, &q, &mut this_side); // digits are close on purpose
    println!("{:?}", id);
}

#[test]
fn lib_insert_delete_collect_test() {
    let test_str = "abcdefghijklmnoprstuwxyz1234567890";
    let mut this_side = Side::new(123);
    let mut doc = Doc::new();
    let mut tree = TreeCRDT::default();
    let mut ids = vec![];
    let mut new_id = doc.bos_id();
    let eos = doc.eos_id();
    for ch in test_str.chars() {
        println!("ch: {}", ch);
        println!("between: {:?}", new_id);
        new_id = doc.generate_id(&new_id, &eos, &mut this_side);
        println!("new_id: {:?}\n", new_id);
        tree.insert(&to_path(&new_id), ch);
        ids.push(new_id.clone());
    }
    let doc_str = tree.collect_string();
    assert_eq!(test_str, doc_str);
    for (id, ch) in ids.iter().zip(test_str.chars()) {
        println!("ch: {}", ch);
        tree.remove(&to_path(id));
    }
    let doc_str = tree.collect_string();
    assert_eq!("", doc_str);
}

#[test]
fn lib_remove_absolute_test() {
    let test_str = "aabbccddeeffgg";
    let mut this_side = Side::new(123);
    let mut doc = Doc::new();
    let mut new_id = doc.bos_id();
    let eos = doc.eos_id();
    for ch in test_str.chars() {
        println!("ch: {}", ch);
        println!("between: {:?}", new_id);
        new_id = doc.generate_id(&new_id, &eos, &mut this_side);
        println!("new_id: {:?}\n", new_id);
        doc.insert_id(new_id.clone(), ch as u8).expect("insert failed");
    }
    println!("doc size: {}", doc.live_len());
    for i in (0..test_str.len()).rev() {
        if i % 2 == 1 {
            doc.remove_absolute(i).expect("remove failed");
        }
    }
    let doc_str = doc.collect_string();
    assert_eq!("abcdefg", doc_str);
}

#[test]
fn tree_manual_paths_test() {
    let mut tree = TreeCRDT::default();
    tree.insert(&from_digits(&[100]), 'x');
    tree.insert(&from_digits(&[200]), 'y');
    assert_eq!("xy", tree.collect_string());
    tree.insert(&from_digits(&[100, 5]), 'z');
    assert_eq!("xzy", tree.collect_string());
    // a node with children is only emptied, not detached
    tree.remove(&from_digits(&[100]));
    assert_eq!("zy", tree.collect_string());
    // a childless node leaves the trie
    tree.remove(&from_digits(&[100, 5]));
    assert_eq!("y", tree.collect_string());
    tree.remove(&from_digits(&[200]));
    assert_eq!("", tree.collect_string());
}

#[test]
fn node_new_test() {
    let node = NodeCRDT::new('q', 3);
    assert_eq!(Some('q'), node.data);
    assert_eq!(3, node.depth);
    assert_eq!(1, node.subtree_size);
    assert_eq!(0, node.children.len());
}

#[test]
fn max_digit_test() {
    assert_eq!(16, NodeCRDT::max_digit(0));
    assert_eq!(32, NodeCRDT::max_digit(1));
    assert_eq!(1 << 14, NodeCRDT::max_digit(10));
}

#[test]
fn iterator_walk_test() {
    let mut tree = TreeCRDT::default();
    tree.insert(&from_digits(&[100]), 'a');
    tree.insert(&from_digits(&[100, 7]), 'b');
    tree.insert(&from_digits(&[200]), 'c');
    let mut iter = tree.root.iter();
    let mut seen = String::new();
    while let Some(node) = iter.next() {
        if let Some(c) = node.data {
            seen.push(c);
        }
    }
    // the walk yields each node before its children, in position order
    assert_eq!("abc", seen);
    let mut done = tree.root.iter();
    while done.next().is_some() {}
    assert!(done.next().is_none());
}

#[test]
fn bos_eos_path_test() {
    let tree = TreeCRDT::default();
    let bos = tree.bos_path();
    let eos = tree.eos_path();
    assert_eq!(1, bos.len());
    assert_eq!(0, bos[0].digit);
    assert_eq!(1, eos.len());
    assert_eq!(u32::MAX, eos[0].digit);
}
