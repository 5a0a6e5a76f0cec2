use pbtree::codec::Codec;
use pbtree::error::Error;
use pbtree::node::{Node, NODE_SIZE, NONE, NUM_KEYS, T};
use pbtree::storage::{MemFile, Storage};
use pbtree::test_tree::TestTree;
use rand::Rng;
use rand::SeedableRng;
use rand::XorShiftRng;

type Tree = TestTree<String, String, MemFile>;

fn new_tree() -> Tree {
    TestTree::new(MemFile::new(), MemFile::new(), MemFile::new()).unwrap()
}

fn node_at(t: &Tree, loc: u64) -> Node {
    let bytes = t.treefile.as_slice();
    Node::decode(&bytes[loc as usize..loc as usize + NODE_SIZE]).unwrap()
}

fn root_of(t: &Tree) -> Node {
    let bytes = t.treefile.as_slice();
    let mut head = [0u8; 8];
    head.copy_from_slice(&bytes[..8]);
    node_at(t, u64::from_le_bytes(head))
}

fn key_at(t: &Tree, loc: u64) -> String {
    let mut keys = MemFile::from_bytes(t.keyfile.as_slice().to_vec());
    String::deserialize(&mut keys, loc).unwrap()
}

/// Walks the nodes below `n` and checks what a tree of this order promises; returns
/// the number of nodes and appends the keys in order.
fn check(t: &Tree, n: &Node, is_root: bool, keys: &mut Vec<String>) -> u64 {
    assert!(n.len <= NUM_KEYS as u64);
    assert!(is_root || n.len >= T - 1);
    for i in n.len as usize..NUM_KEYS {
        assert_eq!(n.keys[i], NONE);
        assert_eq!(n.values[i], NONE);
    }
    let mut count = 1;
    for i in 0..=n.len as usize {
        if !n.leaf {
            let c = node_at(t, n.children[i]);
            assert_eq!(c.loc, n.children[i]);
            count += check(t, &c, false, keys);
        } else {
            assert_eq!(n.children[i], NONE);
        }
        if i < n.len as usize {
            keys.push(key_at(t, n.keys[i]));
        }
    }
    count
}

fn check_whole(t: &Tree) -> Vec<String> {
    let mut keys = Vec::new();
    let nodes = check(t, &root_of(t), true, &mut keys);
    assert_eq!(t.treefile.as_slice().len() as u64, 8 + nodes * NODE_SIZE as u64);
    for pair in keys.windows(2) {
        assert!(pair[0] < pair[1]);
    }
    keys
}

#[test]
fn a_new_tree_is_a_header_and_an_empty_leaf() {
    let t = new_tree();
    let bytes = t.treefile.as_slice();
    assert_eq!(bytes.len(), 8 + NODE_SIZE);
    assert_eq!(&bytes[..8], &[8, 0, 0, 0, 0, 0, 0, 0]);
    let root = root_of(&t);
    assert_eq!(root.loc, 8);
    assert_eq!(root.len, 0);
    assert!(root.leaf);
    assert_eq!(root.parent, NONE);
    assert_eq!(t.keyfile.as_slice().len(), 0);
    assert_eq!(t.valfile.as_slice().len(), 0);
}

#[test]
fn a_new_tree_empties_its_stores() {
    let t: Tree = TestTree::new(
        MemFile::from_bytes(vec![1; 5000]),
        MemFile::from_bytes(vec![2; 10]),
        MemFile::from_bytes(vec![3; 10]),
    )
    .unwrap();
    assert_eq!(t.treefile.as_slice().len(), 8 + NODE_SIZE);
    assert_eq!(t.keyfile.as_slice().len(), 0);
    assert_eq!(t.valfile.as_slice().len(), 0);
}

#[test]
fn an_empty_tree_holds_nothing() {
    let mut t = new_tree();
    assert_eq!(t.search(&String::from("a")).unwrap(), None);
    assert!(!t.contains_key(&String::from("a")).unwrap());
}

#[test]
fn sixteen_keys_stay_in_the_root() {
    let mut t = new_tree();
    for i in 0..16 {
        let p = i.to_string();
        t.insert(&p, &p).unwrap();
    }
    for i in 0..16 {
        let p = i.to_string();
        assert_eq!(t.search(&p).unwrap(), Some(p));
    }
    let root = root_of(&t);
    assert!(root.leaf);
    assert_eq!(root.len, 16);
    assert!(t.root.leaf);
    assert_eq!(t.root.len, 16);
    check_whole(&t);
}

#[test]
fn the_thirty_second_key_splits_the_root() {
    let mut t = new_tree();
    for i in 0..31 {
        let p = i.to_string();
        t.insert(&p, &p).unwrap();
    }
    assert!(root_of(&t).leaf);
    assert_eq!(root_of(&t).len, 31);
    t.insert(&String::from("31"), &String::from("31")).unwrap();
    let root = root_of(&t);
    assert!(!root.leaf);
    assert_eq!(root.len, 1);
    assert_eq!(root.loc, 8 + NODE_SIZE as u64);
    assert_eq!(t.root.len, 1);
    let left = node_at(&t, root.children[0]);
    let right = node_at(&t, root.children[1]);
    assert!(left.leaf && right.leaf);
    // "22" is the median of "0" to "30" as strings, and "31" comes after it.
    assert_eq!(key_at(&t, root.keys[0]), "22");
    assert_eq!((left.len, right.len), (15, 16));
    assert_eq!(left.parent, root.loc);
    assert_eq!(right.parent, root.loc);
    assert_eq!(left.loc, 8);
    assert_eq!(right.loc, 8 + 2 * NODE_SIZE as u64);
    assert_eq!(t.treefile.as_slice().len(), 8 + 3 * NODE_SIZE);
    for i in 0..32 {
        let p = i.to_string();
        assert_eq!(t.search(&p).unwrap(), Some(p));
    }
    assert_eq!(check_whole(&t).len(), 32);
}

#[test]
fn every_key_inserted_is_found_and_no_other() {
    let mut rng = XorShiftRng::from_seed([0, 1, 377, 6712]);
    let mut t: TestTree<u64, u64, MemFile> =
        TestTree::new(MemFile::new(), MemFile::new(), MemFile::new()).unwrap();
    let mut keys = Vec::new();
    while keys.len() < 3000 {
        let k: u64 = rng.gen_range(0, 1_000_000) * 2;
        if !keys.contains(&k) {
            keys.push(k);
            t.insert(&k, &k).unwrap();
        }
    }
    for k in &keys {
        assert_eq!(t.search(k).unwrap(), Some(*k));
        assert!(t.contains_key(k).unwrap());
        assert_eq!(t.search(&(k + 1)).unwrap(), None);
        assert!(!t.contains_key(&(k + 1)).unwrap());
    }
}

#[test]
fn a_value_is_the_one_inserted_with_its_key() {
    let mut t = new_tree();
    for i in 0..200 {
        t.insert(&format!("key{}", i), &format!("value of {}", i * 7)).unwrap();
    }
    for i in 0..200 {
        assert_eq!(t.search(&format!("key{}", i)).unwrap(), Some(format!("value of {}", i * 7)));
    }
    assert_eq!(t.search(&String::from("key")).unwrap(), None);
    assert_eq!(t.search(&String::from("key200")).unwrap(), None);
}

#[test]
fn contains_key_agrees_with_search() {
    let mut t = new_tree();
    for i in (0..500).step_by(3) {
        t.insert(&i.to_string(), &i.to_string()).unwrap();
    }
    for i in 0..500 {
        let k = i.to_string();
        assert_eq!(t.contains_key(&k).unwrap(), t.search(&k).unwrap().is_some());
        assert_eq!(t.contains_key(&k).unwrap(), i % 3 == 0);
    }
}

#[test]
fn the_nodes_keep_the_order_of_the_tree() {
    let mut rng = XorShiftRng::from_seed([4, 3, 2, 1]);
    let mut t = new_tree();
    let mut want = Vec::new();
    for i in 0..2000u32 {
        let k = format!("{:08}", rng.gen_range(0, 100_000_000u32) / 2000 * 2000 + i);
        want.push(k.clone());
        t.insert(&k, &k).unwrap();
        if i % 250 == 0 {
            check_whole(&t);
        }
    }
    want.sort();
    assert_eq!(check_whole(&t), want);
}

#[test]
fn a_tree_opened_again_holds_what_was_inserted() {
    let mut t = new_tree();
    for i in 0..1000 {
        t.insert(&i.to_string(), &(i * 2).to_string()).unwrap();
    }
    t.flush().unwrap();
    let tree = MemFile::from_bytes(t.treefile.as_slice().to_vec());
    let keys = MemFile::from_bytes(t.keyfile.as_slice().to_vec());
    let vals = MemFile::from_bytes(t.valfile.as_slice().to_vec());
    let mut again: Tree = TestTree::open(tree, keys, vals).unwrap();
    assert_eq!(again.root.len, t.root.len);
    assert_eq!(again.root.loc, t.root.loc);
    for i in 0..1000 {
        assert_eq!(again.search(&i.to_string()).unwrap(), Some((i * 2).to_string()));
    }
    assert_eq!(again.search(&String::from("1000")).unwrap(), None);
    again.insert(&String::from("1000"), &String::from("2000")).unwrap();
    assert_eq!(again.search(&String::from("1000")).unwrap(), Some(String::from("2000")));
    assert_eq!(check_whole(&again).len(), 1001);
}

#[test]
fn what_is_no_tree_does_not_open() {
    let open = |bytes: Vec<u8>| -> Result<Tree, Error> {
        TestTree::open(MemFile::from_bytes(bytes), MemFile::new(), MemFile::new())
    };
    assert!(matches!(open(vec![]), Err(Error::Corrupt)));
    assert!(matches!(open(vec![0; 8]), Err(Error::Corrupt)));
    let good = new_tree().treefile.as_slice().to_vec();
    assert!(open(good.clone()).is_ok());
    let mut long = good.clone();
    long.push(0);
    assert!(matches!(open(long), Err(Error::Corrupt)));
    let mut far = good.clone();
    far[0] = 9;
    assert!(matches!(open(far), Err(Error::Corrupt)));
    let mut beyond = good.clone();
    beyond[..8].copy_from_slice(&(8 + NODE_SIZE as u64).to_le_bytes());
    assert!(matches!(open(beyond), Err(Error::Corrupt)));
    let mut elsewhere = good.clone();
    elsewhere[8 + 8] = 1;
    assert!(matches!(open(elsewhere), Err(Error::Corrupt)));
}

#[test]
fn a_small_cache_changes_no_answer() {
    let mut t = new_tree();
    t.set_cache_size(1);
    for i in 0..2000 {
        t.insert(&i.to_string(), &i.to_string()).unwrap();
    }
    t.set_cache_size(0);
    for i in 0..2000 {
        assert_eq!(t.search(&i.to_string()).unwrap(), Some(i.to_string()));
    }
    t.set_cache_size(3);
    for i in 2000..2100 {
        t.insert(&i.to_string(), &i.to_string()).unwrap();
    }
    assert_eq!(check_whole(&t).len(), 2100);
}

#[test]
fn a_tree_that_loops_is_corrupt() {
    let mut t = new_tree();
    for i in 0..100 {
        t.insert(&format!("{:03}", i), &String::new()).unwrap();
    }
    // Make the first child of the root point back at the root.
    let mut root = root_of(&t);
    assert!(!root.leaf);
    root.children[0] = root.loc;
    let mut bytes = t.treefile.as_slice().to_vec();
    bytes[root.loc as usize..root.loc as usize + NODE_SIZE].copy_from_slice(&root.encode());
    let mut looped: Tree = TestTree::open(
        MemFile::from_bytes(bytes),
        MemFile::from_bytes(t.keyfile.as_slice().to_vec()),
        MemFile::from_bytes(t.valfile.as_slice().to_vec()),
    )
    .unwrap();
    assert!(matches!(looped.search(&String::from("000")), Err(Error::Corrupt)));
    assert!(matches!(looped.contains_key(&String::from("000")), Err(Error::Corrupt)));
    assert!(matches!(looped.insert(&String::from("000"), &String::new()), Err(Error::Corrupt)));
}

#[test]
fn it_works() {
    let mut t = new_tree();
    let x = 16 * 16 * 16 * 16;
    for i in 0..x {
        let p = i.to_string();
        t.insert(&p, &p).unwrap();
    }
    for i in 0..x {
        let p = i.to_string();
        assert_eq!(t.search(&p).unwrap().unwrap(), p);
    }
    assert_eq!(check_whole(&t).len(), x);
}

/// A key of the caller's own: a number that is stored in one byte and ordered the
/// other way round.
#[derive(Debug, PartialEq, PartialOrd)]
struct Down(std::cmp::Reverse<u8>);

impl Codec for Down {
    fn serialize(&self) -> Vec<u8> {
        vec![self.0 .0]
    }

    fn deserialize<F: Storage>(file: &mut F, pos: u64) -> Result<Self, Error> {
        let bytes = file.read_at(pos, 1)?;
        match bytes.first() {
            Some(b) => Ok(Down(std::cmp::Reverse(*b))),
            None => Err(Error::Corrupt),
        }
    }
}

#[test]
fn keys_of_the_callers_own_order() {
    let mut t: TestTree<Down, u64, MemFile> =
        TestTree::new(MemFile::new(), MemFile::new(), MemFile::new()).unwrap();
    for i in 0..200u8 {
        t.insert(&Down(std::cmp::Reverse(i)), &(i as u64 * 3)).unwrap();
    }
    for i in 0..200u8 {
        assert_eq!(t.search(&Down(std::cmp::Reverse(i))).unwrap(), Some(i as u64 * 3));
    }
    assert_eq!(t.search(&Down(std::cmp::Reverse(200))).unwrap(), None);
    // The greatest number is the least key: it stands first in the leftmost leaf.
    let bytes = t.treefile.as_slice();
    let mut head = [0u8; 8];
    head.copy_from_slice(&bytes[..8]);
    let mut at = u64::from_le_bytes(head) as usize;
    let mut n = Node::decode(&bytes[at..at + NODE_SIZE]).unwrap();
    while !n.leaf {
        at = n.children[0] as usize;
        n = Node::decode(&bytes[at..at + NODE_SIZE]).unwrap();
    }
    assert_eq!(t.keyfile.as_slice()[n.keys[0] as usize], 199);
}

#[test]
fn the_crate_root_names_the_tree() {
    let t: pbtree::TestTree<u64, u64, MemFile> =
        pbtree::TestTree::new(MemFile::new(), MemFile::new(), MemFile::new()).unwrap();
    assert_eq!(t.root.len, 0);
    assert_eq!(pbtree::T, 16);
    assert_eq!(pbtree::NUM_KEYS, 31);
    assert_eq!(pbtree::NUM_CHILDREN, 32);
    assert_eq!(pbtree::T_USIZE, 16);
    assert_eq!(pbtree::NONE, u64::MAX);
}

#[test]
fn a_leaf_root_takes_the_entry_itself() {
    let mut t: TestTree<u64, u64, MemFile> =
        TestTree::new(MemFile::new(), MemFile::new(), MemFile::new()).unwrap();
    assert_eq!(t.search(&5).unwrap(), None);
    assert!(!t.contains_key(&5).unwrap());
    t.insert(&5, &50).unwrap();
    t.insert(&3, &30).unwrap();
    t.insert(&9, &90).unwrap();
    assert!(t.root.leaf);
    assert_eq!(t.root.len, 3);
    assert_eq!(t.root.loc, 8);
    assert_eq!(t.root_location, 8);
    // The records stand in the order of the calls, the offsets in that of the keys.
    assert_eq!(&t.root.keys[..3], &[8, 0, 16]);
    assert_eq!(&t.root.values[..3], &[8, 0, 16]);
    assert_eq!(t.treefile.as_slice().len(), 8 + NODE_SIZE);
    assert_eq!(&t.treefile.as_slice()[8..], &t.root.encode()[..]);
    assert_eq!(t.search(&3).unwrap(), Some(30));
}

#[test]
fn a_split_root_stands_under_a_new_root_that_the_header_names() {
    let mut t = new_tree();
    for i in 0..31 {
        let p = i.to_string();
        t.insert(&p, &p).unwrap();
    }
    let whole = t.root;
    let end = t.treefile.as_slice().len() as u64;
    let key_end = t.keyfile.as_slice().len() as u64;
    t.insert(&String::from("31"), &String::from("31")).unwrap();
    let mut head = [0u8; 8];
    head.copy_from_slice(&t.treefile.as_slice()[..8]);
    assert_eq!(u64::from_le_bytes(head), end);
    assert_eq!(t.root_location, end);
    assert_eq!(t.root.loc, end);
    assert!(!t.root.leaf);
    assert_eq!(t.root.len, 1);
    assert_eq!(t.root.children[0], whole.loc);
    assert_eq!(t.root.children[1], end + NODE_SIZE as u64);
    assert_eq!(t.root.keys[0], whole.keys[T as usize - 1]);
    assert_eq!(t.root.values[0], whole.values[T as usize - 1]);
    assert_eq!(&root_of(&t).encode()[..], &t.root.encode()[..]);
    let left = node_at(&t, whole.loc);
    let right = node_at(&t, end + NODE_SIZE as u64);
    // "31" comes after the median, "22": the upper half takes it.
    assert_eq!((left.len, right.len), (15, 16));
    assert_eq!(&left.keys[..15], &whole.keys[..15]);
    assert!(right.keys[..16].contains(&key_end));
    let upper: Vec<u64> = right.keys[..16].iter().copied().filter(|&at| at != key_end).collect();
    assert_eq!(&upper[..], &whole.keys[16..31]);
}
