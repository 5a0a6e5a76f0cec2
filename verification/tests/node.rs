use pbtree::error::Error;
use pbtree::node::{Freq, Node, NodeCache, NODE_SIZE, NONE, NUM_CHILDREN, NUM_KEYS, T, T_USIZE};
use pbtree::storage::{MemFile, Storage};

fn full_node(leaf: bool) -> Node {
    let mut n = Node::new();
    n.leaf = leaf;
    n.loc = 785;
    n.len = NUM_KEYS as u64;
    for i in 0..NUM_KEYS {
        n.keys[i] = 100 + i as u64;
        n.values[i] = 200 + i as u64;
    }
    if !leaf {
        for i in 0..NUM_CHILDREN {
            n.children[i] = 300 + i as u64;
        }
    }
    n
}

fn same(a: &Node, b: &Node) -> bool {
    a.parent == b.parent
        && a.loc == b.loc
        && a.len == b.len
        && a.keys == b.keys
        && a.values == b.values
        && a.children == b.children
        && a.leaf == b.leaf
}

/// A store with `count` records after a header; the node at index `i` has `i` keys.
fn store_of_nodes(count: u64) -> MemFile {
    let mut m = MemFile::new();
    m.write_at(0, &8u64.to_le_bytes()).unwrap();
    for i in 0..count {
        let mut n = Node::new();
        n.loc = 8 + i * NODE_SIZE as u64;
        n.len = i % 32;
        m.write_at(n.loc, &n.encode()).unwrap();
    }
    m
}

#[test]
fn the_constants_fit_the_order() {
    assert_eq!(T, 16);
    assert_eq!(T_USIZE, 16);
    assert_eq!(NUM_KEYS, 31);
    assert_eq!(NUM_CHILDREN, 32);
    assert_eq!(NONE, u64::MAX);
    assert_eq!(NODE_SIZE, 8 * (3 + 31 + 31 + 32) + 1);
}

#[test]
fn a_new_node_is_an_empty_leaf() {
    let n = Node::new();
    assert_eq!(n.parent, NONE);
    assert_eq!(n.loc, 0);
    assert_eq!(n.len, 0);
    assert!(n.leaf);
    assert!(n.keys.iter().all(|k| *k == NONE));
    assert!(n.values.iter().all(|k| *k == NONE));
    assert!(n.children.iter().all(|k| *k == NONE));
}

#[test]
fn a_record_has_the_fields_in_order() {
    let mut n = Node::new();
    n.parent = 0x0102030405060708;
    n.loc = 9;
    n.len = 2;
    n.keys[0] = 10;
    n.values[30] = 11;
    n.children[31] = 12;
    let e = n.encode();
    assert_eq!(e.len(), NODE_SIZE);
    assert_eq!(&e[0..8], &[8, 7, 6, 5, 4, 3, 2, 1]);
    assert_eq!(e[8], 9);
    assert_eq!(e[16], 2);
    assert_eq!(e[24], 10);
    assert_eq!(e[8 * (3 + 31 + 30)], 11);
    assert_eq!(e[8 * (3 + 31 + 31 + 31)], 12);
    assert_eq!(e[NODE_SIZE - 1], 1);
    n.leaf = false;
    assert_eq!(n.encode()[NODE_SIZE - 1], 0);
}

#[test]
fn a_record_decodes_to_its_node() {
    for leaf in [true, false] {
        let n = full_node(leaf);
        let back = Node::decode(&n.encode()).unwrap();
        assert!(same(&n, &back));
    }
    let n = Node::new();
    assert!(same(&n, &Node::decode(&n.encode()).unwrap()));
}

#[test]
fn what_is_no_record_does_not_decode() {
    let n = full_node(true);
    let e = n.encode();
    assert!(Node::decode(&e[..NODE_SIZE - 1]).is_none());
    assert!(Node::decode(&[]).is_none());
    let mut long = e.clone();
    long.push(0);
    assert!(Node::decode(&long).is_none());
    let mut flag = e.clone();
    flag[NODE_SIZE - 1] = 2;
    assert!(Node::decode(&flag).is_none());
    let mut len = e.clone();
    len[16] = 32;
    assert!(Node::decode(&len).is_none());
}

#[test]
fn an_entry_goes_in_at_its_index() {
    let mut n = Node::new();
    n.insert_entry(0, 10, 110);
    n.insert_entry(1, 30, 130);
    n.insert_entry(1, 20, 120);
    n.insert_entry(0, 5, 105);
    assert_eq!(n.len, 4);
    assert_eq!(&n.keys[..5], &[5, 10, 20, 30, NONE]);
    assert_eq!(&n.values[..5], &[105, 110, 120, 130, NONE]);
    assert!(n.children.iter().all(|c| *c == NONE));
}

#[test]
fn a_split_shares_the_keys_out() {
    let mut y = full_node(false);
    let (z, k, v) = y.split_off(777);
    assert_eq!((k, v), (115, 215));
    assert_eq!(y.len, 15);
    assert_eq!(z.len, 15);
    assert_eq!(y.parent, 777);
    assert_eq!(z.parent, 777);
    assert_eq!(y.loc, 785);
    assert!(!z.leaf);
    for i in 0..15 {
        assert_eq!(y.keys[i], 100 + i as u64);
        assert_eq!(y.values[i], 200 + i as u64);
        assert_eq!(z.keys[i], 116 + i as u64);
        assert_eq!(z.values[i], 216 + i as u64);
    }
    for i in 15..NUM_KEYS {
        assert_eq!(y.keys[i], NONE);
        assert_eq!(z.values[i], NONE);
    }
    for i in 0..16 {
        assert_eq!(y.children[i], 300 + i as u64);
        assert_eq!(z.children[i], 316 + i as u64);
    }
    for i in 16..NUM_CHILDREN {
        assert_eq!(y.children[i], NONE);
        assert_eq!(z.children[i], NONE);
    }
}

#[test]
fn a_split_leaf_has_no_children() {
    let mut y = full_node(true);
    let (z, _, _) = y.split_off(8);
    assert!(z.leaf && y.leaf);
    assert!(z.children.iter().all(|c| *c == NONE));
    assert!(y.children.iter().all(|c| *c == NONE));
}

#[test]
fn a_parent_adopts_the_new_child() {
    let mut x = Node::new();
    x.leaf = false;
    x.len = 2;
    x.keys[0] = 10;
    x.keys[1] = 30;
    x.values[0] = 110;
    x.values[1] = 130;
    x.children[0] = 1000;
    x.children[1] = 2000;
    x.children[2] = 3000;
    x.adopt(1, 20, 120, 2500);
    assert_eq!(x.len, 3);
    assert_eq!(&x.keys[..4], &[10, 20, 30, NONE]);
    assert_eq!(&x.values[..4], &[110, 120, 130, NONE]);
    assert_eq!(&x.children[..5], &[1000, 2000, 2500, 3000, NONE]);
    x.adopt(0, 5, 105, 1500);
    assert_eq!(&x.keys[..5], &[5, 10, 20, 30, NONE]);
    assert_eq!(&x.children[..6], &[1000, 1500, 2000, 2500, 3000, NONE]);
}

#[test]
fn records_compare_by_count_and_equal_by_offset() {
    let mut a = Freq::new(8);
    let b = Freq::new(785);
    assert_eq!(a.freq, 1);
    assert_eq!(a.loc, 8);
    assert!(a != b);
    assert!(!(a < b) && !(a > b));
    a.freq = 5;
    assert!(b < a);
    assert!(a > b);
    assert!(a == Freq { freq: 1, loc: 8 });
}

#[test]
fn the_cache_returns_the_node_of_the_store() {
    let mut m = store_of_nodes(4);
    let mut c = NodeCache::new(2);
    assert_eq!(c.size, 2);
    let n = c.get(8 + 2 * NODE_SIZE as u64, &mut m).unwrap();
    assert_eq!(n.len, 2);
    assert_eq!(n.loc, 8 + 2 * NODE_SIZE as u64);
}

#[test]
fn the_cache_keeps_what_it_was_given() {
    let mut m = store_of_nodes(4);
    let mut c = NodeCache::new(2);
    let at = 8 + NODE_SIZE as u64;
    let mut n = c.get(at, &mut m).unwrap();
    n.len = 7;
    c.update(&n);
    // The store still says 1; the cache answers.
    assert_eq!(c.get(at, &mut m).unwrap().len, 7);
    let mut fresh = MemFile::new();
    assert_eq!(c.get(at, &mut fresh).unwrap().len, 7);
}

#[test]
fn an_update_of_a_node_not_held_does_nothing() {
    let mut m = store_of_nodes(4);
    let mut c = NodeCache::new(2);
    let mut n = Node::new();
    n.loc = 8;
    n.len = 9;
    c.update(&n);
    assert_eq!(c.get(8, &mut m).unwrap().len, 0);
}

#[test]
fn the_node_asked_for_least_leaves_the_cache() {
    let mut m = store_of_nodes(4);
    let mut c = NodeCache::new(2);
    let a = 8;
    let b = 8 + NODE_SIZE as u64;
    let d = 8 + 2 * NODE_SIZE as u64;
    c.get(a, &mut m).unwrap();
    c.get(b, &mut m).unwrap();
    c.get(a, &mut m).unwrap();
    c.get(a, &mut m).unwrap();
    // `b` was asked for once, `a` three times: `b` leaves for `d`.
    c.get(d, &mut m).unwrap();
    let mut empty = MemFile::new();
    assert!(c.get(a, &mut empty).is_ok());
    assert!(c.get(d, &mut empty).is_ok());
    assert!(c.get(b, &mut empty).is_err());
}

#[test]
fn a_cache_without_room_holds_nothing() {
    let mut m = store_of_nodes(2);
    let mut c = NodeCache::new(0);
    assert_eq!(c.get(8, &mut m).unwrap().len, 0);
    let mut empty = MemFile::new();
    assert!(c.get(8, &mut empty).is_err());
}

#[test]
fn what_is_no_node_is_corrupt() {
    let mut m = store_of_nodes(2);
    let mut c = NodeCache::new(2);
    assert!(matches!(c.get(8 + 2 * NODE_SIZE as u64, &mut m), Err(Error::Corrupt)));
    assert!(matches!(c.get(9 + NODE_SIZE as u64, &mut m), Err(Error::Corrupt)));
    let mut bad = MemFile::from_bytes(vec![0xFF; 8 + NODE_SIZE]);
    assert!(matches!(c.get(8, &mut bad), Err(Error::Corrupt)));
}

#[test]
fn the_cache_holds_no_more_nodes_than_its_limit() {
    let mut m = store_of_nodes(6);
    let mut c = NodeCache::new(3);
    for round in 0..4u64 {
        for i in 0..6u64 {
            let at = 8 + ((i + round) % 6) * NODE_SIZE as u64;
            assert_eq!(c.get(at, &mut m).unwrap().loc, at);
            assert!(c.nodes.len() <= 3);
        }
    }
    assert_eq!(c.nodes.len(), 3);
}
