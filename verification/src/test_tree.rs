//! The tree: an ordered map from keys to values, kept in three stores.
//!
//! The tree store holds the offset of the root in its first eight bytes and then
//! the records of the nodes, one after the other. The key store and the value
//! store hold the records of the keys and of the values, each appended when its
//! entry was inserted; a node holds their offsets.

use std::marker::PhantomData;
use vstd::bytes::lemma_auto_spec_u64_to_from_le_bytes;
use vstd::bytes::spec_u64_to_le_bytes;
use vstd::bytes::u64_from_le_bytes;
use vstd::bytes::u64_to_le_bytes;
use vstd::prelude::*;
use vstd::std_specs::cmp::PartialEqSpec;
use vstd::std_specs::cmp::PartialOrdSpec;
use crate::codec::holds_at;
use crate::codec::is_self_delimiting;
use crate::codec::lemma_value_at;
use crate::codec::read_exact;
use crate::codec::value_at;
use crate::codec::Codec;
use crate::error::Error;
use crate::node::encoding;
use crate::node::lemma_decoding_of_encoding;
use crate::node::lemma_encoding_words;
use crate::node::node_at;
use crate::node::word_at;
use crate::node::Node;
use crate::node::NodeCache;
use crate::node::NODE_SIZE;
use crate::node::NUM_KEYS;
use crate::order::above;
use crate::order::below;
use crate::order::good;
use crate::order::good_parent;
use crate::order::hi_of;
use crate::order::in_file;
use crate::order::inserted;
use crate::order::is_ordered_key;
use crate::order::keys_of;
use crate::order::lemma_after_split;
use crate::order::lemma_child_elsewhere;
use crate::order::lemma_child_ready;
use crate::order::lemma_compose;
use crate::order::lemma_descent;
use crate::order::lemma_fuel;
use crate::order::lemma_leaf_insert;
use crate::order::lemma_new_root;
use crate::order::lemma_ready_parent;
use crate::order::lemma_split;
use crate::order::lo_of;
use crate::order::ready;
use crate::order::reads;
use crate::order::on_grid;
use crate::priority_queue::follows;
use crate::priority_queue::precedes;
use crate::priority_queue::same;
use crate::storage::lemma_overwritten_at_end;
use crate::storage::lemma_overwritten_holds;
use crate::storage::lemma_overwritten_window;
use crate::storage::overwritten;
use crate::storage::window;
use crate::storage::Storage;

verus! {

/// The most levels that a search or an insertion descends. A tree of this order
/// whose keys have offsets of 64 bits is lower by far.
pub const MAX_HEIGHT: u64 = 64;

/// Nodes that the cache of a new tree takes in.
pub const NEW_CACHE_SIZE: usize = 128;

/// Nodes that the cache of a tree that was opened takes in.
pub const OPEN_CACHE_SIZE: usize = 20;

/// The bytes `b` are a header and whole records of nodes after it, one at least.
pub open spec fn holds_nodes(b: Seq<u8>) -> bool {
    b.len() >= 8 + NODE_SIZE && on_grid(b.len() as int) && b.len() <= u64::MAX
}

/// The bytes `b` are a tree store: a header and whole records, with the record of
/// a node that says that it stands there where the header says that the root
/// stands.
pub open spec fn tree_stands(b: Seq<u8>) -> bool {
    &&& holds_nodes(b)
    &&& in_file(b, word_at(b, 0) as int)
    &&& node_at(b, word_at(b, 0) as int) is Some
    &&& node_at(b, word_at(b, 0) as int)->0.loc == word_at(b, 0)
}

/// The comparison operators of `K` compute what their specifications say, and
/// its records tell their own length: what the statements about searches rest
/// on.
pub open spec fn is_keyed<K: Codec + PartialOrd>() -> bool {
    &&& is_self_delimiting::<K>()
    &&& K::obeys_partial_cmp_spec()
    &&& K::obeys_eq_spec()
}

/// Writing the record of a node at the offset of a node, or at the end, leaves
/// whole records, and every other record as it was.
pub proof fn lemma_node_written(b: Seq<u8>, at: int, n: Node, other: int)
    requires
        holds_nodes(b),
        on_grid(at),
        at <= b.len(),
        at + NODE_SIZE <= u64::MAX,
        n.valid(),
    ensures
        holds_nodes(overwritten(b, at, encoding(n))),
        overwritten(b, at, encoding(n)).len() == if at == b.len() {
            b.len() + NODE_SIZE
        } else {
            b.len() as int
        },
        node_at(overwritten(b, at, encoding(n)), at) == Some(n),
        in_file(b, other) && other != at ==> node_at(overwritten(b, at, encoding(n)), other)
            == node_at(b, other),
        word_at(overwritten(b, at, encoding(n)), 0) == word_at(b, 0),
{
    lemma_encoding_words(n, 0);
    lemma_decoding_of_encoding(n);
    let e = encoding(n);
    let after = overwritten(b, at, e);
    lemma_overwritten_holds(b, at, e);
    if in_file(b, other) && other != at {
        lemma_overwritten_window(b, at, e, other, NODE_SIZE as int);
    }
    assert(after.subrange(0, 8) =~= b.subrange(0, 8));
}

/// Writing the header leaves every record as it was.
pub proof fn lemma_header_written(b: Seq<u8>, root: u64, other: int)
    requires
        holds_nodes(b),
    ensures
        holds_nodes(overwritten(b, 0, spec_u64_to_le_bytes(root))),
        overwritten(b, 0, spec_u64_to_le_bytes(root)).len() == b.len(),
        word_at(overwritten(b, 0, spec_u64_to_le_bytes(root)), 0) == root,
        in_file(b, other) ==> node_at(overwritten(b, 0, spec_u64_to_le_bytes(root)), other)
            == node_at(b, other),
{
    lemma_auto_spec_u64_to_from_le_bytes();
    let h = spec_u64_to_le_bytes(root);
    let after = overwritten(b, 0, h);
    assert(after.subrange(0, 8) =~= h);
    if in_file(b, other) {
        lemma_overwritten_window(b, 0, h, other, NODE_SIZE as int);
    }
}

/// What a search through the nodes comes to.
pub enum Lookup {
    /// The key is held, and its value stands at this offset of the value store.
    Found(u64),
    /// The key is not held.
    Absent,
    /// The stores do not hold a tree: a key or a node does not read, or the way
    /// down does not end.
    Broken,
}

/// Index at which the search for `k` in the node `n` stops, scanning the keys
/// from index `i` on: that of the first key that `k` does not come after, or the
/// number of keys. `None` where a key on the way does not read.
pub open spec fn stop_index<K: Codec + PartialOrd>(keys: Seq<u8>, n: Node, k: K, i: int) -> Option<
    int,
>
    decreases n.len - i,
{
    if i < 0 || i >= n.len {
        Some(n.len as int)
    } else {
        match value_at::<K>(keys, n.keys[i] as int) {
            None => None,
            Some(held) => if follows(k, held) {
                stop_index(keys, n, k, i + 1)
            } else {
                Some(i)
            },
        }
    }
}

/// What the search for `k` comes to, from the node `n` down through at most
/// `fuel` more levels, in a tree store `tree` and a key store `keys`.
pub open spec fn lookup<K: Codec + PartialOrd>(
    tree: Seq<u8>,
    keys: Seq<u8>,
    n: Node,
    k: K,
    fuel: nat,
) -> Lookup
    decreases fuel,
{
    if n.len == 0 {
        Lookup::Absent
    } else {
        match stop_index(keys, n, k, 0) {
            None => Lookup::Broken,
            Some(i) => if i < n.len && same(k, value_at::<K>(keys, n.keys[i] as int)->0) {
                Lookup::Found(n.values[i])
            } else if n.leaf {
                Lookup::Absent
            } else if fuel == 0 {
                Lookup::Broken
            } else {
                match node_at(tree, n.children[i] as int) {
                    Some(c) => if on_grid(n.children[i] as int) && c.loc == n.children[i] {
                        lookup(tree, keys, c, k, (fuel - 1) as nat)
                    } else {
                        Lookup::Broken
                    },
                    None => Lookup::Broken,
                }
            },
        }
    }
}

/// Index at which `k` goes into the node `n`, scanning its keys down from index
/// `i`: one more than that of the last key that `k` does not come before, or 0.
/// `None` where a key on the way does not read.
pub open spec fn insert_index<K: Codec + PartialOrd>(keys: Seq<u8>, n: Node, k: K, i: int) -> Option<
    int,
>
    decreases i,
{
    if i <= 0 || i > n.len {
        Some(0)
    } else {
        match value_at::<K>(keys, n.keys[i - 1] as int) {
            None => None,
            Some(held) => if precedes(k, held) {
                insert_index(keys, n, k, i - 1)
            } else {
                Some(i)
            },
        }
    }
}

/// What splitting the child at index `child` of the node `x` makes of a tree
/// store `before`: the child, which is full, keeps its lower keys; a node with
/// its upper keys stands at the old end of the store; the median went up into
/// `x`, which stands at its offset as `after_x`; every other node is as it was.
pub open spec fn split_done(
    before: Seq<u8>,
    after: Seq<u8>,
    x: Node,
    after_x: Node,
    child: int,
) -> bool {
    let y_loc = x.children[child] as int;
    let z_loc = before.len() as int;
    let y = node_at(before, y_loc)->0;
    let lower = node_at(after, y_loc)->0;
    let upper = node_at(after, z_loc)->0;
    &&& node_at(before, y_loc) is Some
    &&& y.is_full()
    &&& after.len() == before.len() + NODE_SIZE
    &&& node_at(after, y_loc) is Some
    &&& node_at(after, z_loc) is Some
    &&& node_at(after, x.loc as int) == Some(after_x)
    &&& lower.len == crate::node::T - 1
    &&& upper.len == crate::node::T - 1
    &&& lower.loc == y.loc
    &&& upper.loc == z_loc
    &&& lower.parent == x.loc
    &&& upper.parent == x.loc
    &&& lower.leaf == y.leaf
    &&& upper.leaf == y.leaf
    &&& lower.live_keys() == y.keys@.take(crate::node::T - 1)
    &&& lower.live_values() == y.values@.take(crate::node::T - 1)
    &&& !y.leaf ==> lower.live_children() == y.children@.take(crate::node::T as int)
    &&& upper.live_keys() == y.keys@.subrange(crate::node::T as int, 2 * crate::node::T - 1)
    &&& upper.live_values() == y.values@.subrange(
        crate::node::T as int,
        2 * crate::node::T - 1,
    )
    &&& !y.leaf ==> upper.live_children() == y.children@.subrange(
        crate::node::T as int,
        2 * crate::node::T,
    )
    &&& upper.is_tidy()
    &&& after_x.len == x.len + 1
    &&& after_x.loc == x.loc
    &&& after_x.parent == x.parent
    &&& !after_x.leaf
    &&& after_x.live_keys() == x.live_keys().insert(child, y.keys[crate::node::T - 1])
    &&& after_x.live_values() == x.live_values().insert(child, y.values[crate::node::T - 1])
    &&& after_x.live_children() == x.live_children().insert(child + 1, z_loc as u64)
    &&& forall|other: int|
        in_file(before, other) && other != x.loc && other != y_loc ==> #[trigger] node_at(
            after,
            other,
        ) == node_at(before, other)
}

/// The node `n` is one that the tree keeps at offset `loc` of `tree`, with the
/// root at `root`: it says where it stands, its unused slots hold `NONE`, it holds
/// `T - 1` keys at least unless it is the root, and its children stand in `tree`.
pub open spec fn shape_ok(tree: Seq<u8>, root: int, loc: int, n: Node) -> bool {
    &&& n.loc == loc
    &&& n.is_tidy()
    &&& loc == root || n.len >= crate::node::T - 1
    &&& !n.leaf ==> forall|i: int|
        0 <= i <= n.len ==> in_file(tree, #[trigger] n.children[i] as int)
}

/// Every record of `tree` is that of a node that the tree keeps there: see
/// `shape_ok`.
pub open spec fn all_nodes_ok(tree: Seq<u8>, root: int) -> bool {
    forall|loc: int| #[trigger]
        in_file(tree, loc) ==> node_at(tree, loc) is Some && shape_ok(
            tree,
            root,
            loc,
            node_at(tree, loc)->0,
        )
}

/// The child at index `child` of the node `x` can be split: a full node stands
/// in `tree` where `x` says, says that it stands there, and is not `x` itself.
pub open spec fn splittable(tree: Seq<u8>, x: Node, child: int) -> bool {
    let y_loc = x.children[child] as int;
    &&& on_grid(y_loc)
    &&& y_loc != x.loc
    &&& node_at(tree, y_loc) is Some
    &&& node_at(tree, y_loc)->0.is_full()
    &&& node_at(tree, y_loc)->0.loc == y_loc
}

/// The node `n` holds the offsets `keys` of keys and `values` of their values
/// and, at one index of both, the offsets `key` and `value` as well.
pub open spec fn holds_with(n: Node, keys: Seq<u64>, values: Seq<u64>, key: u64, value: u64) -> bool {
    exists|i: int|
        0 <= i <= keys.len() && n.live_keys() == #[trigger] keys.insert(i, key) && n.live_values()
            == values.insert(i, value)
}

/// The leaf `after` is the leaf `before` with one entry more, the offsets `key`
/// and `value`, and nothing else changed.
pub open spec fn leaf_took(before: Node, after: Node, key: u64, value: u64) -> bool {
    &&& before.leaf
    &&& after.leaf
    &&& after.valid()
    &&& after.len == before.len + 1
    &&& after.loc == before.loc
    &&& after.parent == before.parent
    &&& after.children == before.children
    &&& holds_with(after, before.live_keys(), before.live_values(), key, value)
}

/// A full node stands at offset `loc` of `tree`.
pub open spec fn full_at(tree: Seq<u8>, loc: int) -> bool {
    node_at(tree, loc) is Some && node_at(tree, loc)->0.is_full()
}

/// No child of the node `x` is full in `tree`.
pub open spec fn has_no_full_child(tree: Seq<u8>, x: Node) -> bool {
    forall|i: int| 0 <= i <= x.len ==> !#[trigger] full_at(tree, x.children[i] as int)
}

/// What an insertion makes of the node at offset `loc` of `tree` where it goes
/// down into it and the node is a leaf: the leaf takes the entry, its record is
/// written where it stood, and nothing else of the tree store changes.
pub open spec fn child_took(tree: Seq<u8>, after: Seq<u8>, loc: int, key: u64, value: u64) -> bool {
    &&& node_at(tree, loc) is Some
    &&& node_at(tree, loc)->0.leaf ==> {
        &&& node_at(after, loc) is Some
        &&& after == overwritten(tree, loc, encoding(node_at(after, loc)->0))
        &&& leaf_took(node_at(tree, loc)->0, node_at(after, loc)->0, key, value)
    }
}

/// A leaf that is not full stands at offset `loc` of `tree`, says that it stands
/// there, and its keys read from `keys`.
pub open spec fn leaf_stands<K: Codec>(tree: Seq<u8>, keys: Seq<u8>, loc: int) -> bool {
    &&& on_grid(loc)
    &&& node_at(tree, loc) is Some
    &&& node_at(tree, loc)->0.loc == loc
    &&& node_at(tree, loc)->0.leaf
    &&& !node_at(tree, loc)->0.is_full()
    &&& reads::<K>(keys, node_at(tree, loc)->0)
}

/// What an insertion makes of a full leaf `whole` that was the root of a tree
/// store of `end` bytes: in `after`, two records longer, the leaf stands where
/// it stood with its lower entries, a leaf with its upper entries stands one
/// record after `end`, both are children of the node at `end`, and one of the
/// two holds the offsets `key` and `value` as well.
pub open spec fn halves_took(whole: Node, after: Seq<u8>, end: int, key: u64, value: u64) -> bool {
    let left = node_at(after, whole.loc as int)->0;
    let right = node_at(after, end + NODE_SIZE)->0;
    let lower_keys = whole.keys@.take(crate::node::T - 1);
    let lower_values = whole.values@.take(crate::node::T - 1);
    let upper_keys = whole.keys@.subrange(crate::node::T as int, 2 * crate::node::T - 1);
    let upper_values = whole.values@.subrange(crate::node::T as int, 2 * crate::node::T - 1);
    &&& after.len() == end + 2 * NODE_SIZE
    &&& node_at(after, whole.loc as int) is Some
    &&& node_at(after, end + NODE_SIZE) is Some
    &&& left.leaf
    &&& right.leaf
    &&& left.loc == whole.loc
    &&& right.loc == end + NODE_SIZE
    &&& left.parent == end
    &&& right.parent == end
    &&& left.len + right.len == NUM_KEYS
    &&& {
        ||| {
            &&& holds_with(left, lower_keys, lower_values, key, value)
            &&& right.live_keys() == upper_keys
            &&& right.live_values() == upper_values
        }
        ||| {
            &&& left.live_keys() == lower_keys
            &&& left.live_values() == lower_values
            &&& holds_with(right, upper_keys, upper_values, key, value)
        }
    }
}

/// What a search that came to an end found, as a `Lookup`.
pub open spec fn as_lookup(found: Option<u64>) -> Lookup {
    match found {
        Some(at) => Lookup::Found(at),
        None => Lookup::Absent,
    }
}

/// The store `after` is steady where `before` was, with the room that `before`
/// had.
pub open spec fn steady_as<F: Storage>(after: &F, before: &F) -> bool {
    after.steady() == before.steady() && after.room() == before.room()
}

/// A store `file` takes `len` more bytes at its end: they fit below its room and
/// below the greatest offset.
pub open spec fn takes<F: Storage>(file: &F, len: int) -> bool {
    file.bytes().len() + len <= file.room() && file.bytes().len() + len <= u64::MAX
}

/// Whether the record of a node can start at `pos`.
fn is_on_grid(pos: u64) -> (r: bool)
    ensures
        r == on_grid(pos as int),
{
    pos >= 8 && (pos - 8) % 777 == 0
}

/// Appends `data` to `file` and returns the offset at which it stands.
/// `InvalidSeek` where the store would outgrow its offsets.
fn append<F: Storage>(file: &mut F, data: &[u8]) -> (r: Result<u64, Error>)
    ensures
        steady_as(final(file), old(file)),
        r matches Ok(pos) ==> pos == old(file).bytes().len() && final(file).bytes() == old(file).bytes()
            + data@,
        old(file).steady() && takes(old(file), data@.len() as int) ==> r is Ok,
{
    let pos = match file.size() {
        Ok(n) => n,
        Err(e) => {
            return Err(e);
        },
    };
    if data.len() as u64 > u64::MAX - pos {
        return Err(Error::InvalidSeek);
    }
    proof {
        lemma_overwritten_at_end(file.bytes(), data@);
    }
    match file.write_at(pos, data) {
        Ok(_) => Ok(pos),
        Err(e) => Err(e),
    }
}

/// The tree.
pub struct TestTree<K, V, F: Storage> {
    /// The store of the nodes.
    pub treefile: F,
    /// The store of the keys.
    pub keyfile: F,
    /// The store of the values.
    pub valfile: F,
    /// Offset of the root.
    pub root_location: u64,
    /// The root, as the tree store holds it.
    pub root: Node,
    /// Nodes of the tree store kept in memory.
    pub node_cache: NodeCache,
    /// The type of the keys.
    pub phantom_k: PhantomData<K>,
    /// The type of the values.
    pub phantom_v: PhantomData<V>,
}

impl<K: Codec + PartialOrd, V: Codec, F: Storage> TestTree<K, V, F> {
    /// The bytes of the tree store.
    pub open spec fn tree_bytes(&self) -> Seq<u8> {
        self.treefile.bytes()
    }

    /// The bytes of the key store.
    pub open spec fn key_bytes(&self) -> Seq<u8> {
        self.keyfile.bytes()
    }

    /// The bytes of the value store.
    pub open spec fn val_bytes(&self) -> Seq<u8> {
        self.valfile.bytes()
    }

    /// The root.
    pub open spec fn root_node(&self) -> Node {
        self.root
    }

    /// Offset of the root.
    pub open spec fn root_offset(&self) -> u64 {
        self.root_location
    }

    /// The nodes kept in memory, by their offsets.
    pub open spec fn cached(&self) -> Map<u64, Node> {
        self.node_cache.entries()
    }

    /// The most nodes that the cache takes in.
    pub open spec fn cache_size(&self) -> nat {
        self.node_cache.limit()
    }

    /// The tree store holds whole records, and every node kept in memory is the
    /// one whose record the tree store holds at its offset.
    pub open spec fn stores_agree(&self) -> bool {
        &&& holds_nodes(self.treefile.bytes())
        &&& self.node_cache.wf()
        &&& forall|loc: u64| #[trigger]
            self.node_cache.entries().contains_key(loc) ==> in_file(
                self.treefile.bytes(),
                loc as int,
            ) && node_at(self.treefile.bytes(), loc as int) == Some(
                self.node_cache.entries()[loc],
            )
    }

    /// What holds of a tree between calls that succeeded: the stores agree, the
    /// header names the root, and the root in memory is the root in the store.
    pub open spec fn wf(&self) -> bool {
        &&& self.stores_agree()
        &&& in_file(self.treefile.bytes(), self.root_location as int)
        &&& node_at(self.treefile.bytes(), self.root_location as int) == Some(self.root)
        &&& self.root.loc == self.root_location
        &&& word_at(self.treefile.bytes(), 0) == self.root_location
    }

    /// In a tree between calls that succeeded the tree store is a header and
    /// whole records, the header names the root, and the root in memory is the
    /// node whose record stands there; every node kept in memory is the one whose
    /// record the tree store holds at its offset.
    pub proof fn lemma_wf(&self)
        requires
            self.wf(),
        ensures
            holds_nodes(self.tree_bytes()),
            tree_stands(self.tree_bytes()),
            word_at(self.tree_bytes(), 0) == self.root_offset(),
            in_file(self.tree_bytes(), self.root_offset() as int),
            node_at(self.tree_bytes(), self.root_offset() as int) == Some(self.root_node()),
            self.root_node().loc == self.root_offset(),
            self.root_node().valid(),
            self.cached().dom().finite(),
            forall|loc: u64| #[trigger]
                self.cached().contains_key(loc) ==> in_file(self.tree_bytes(), loc as int)
                    && node_at(self.tree_bytes(), loc as int) == Some(self.cached()[loc]),
    {
        Self::lemma_node_in_file(self.treefile.bytes(), self.root_location as int, self.root);
        self.node_cache.lemma_entries();
    }

    /// A new tree in the three stores, which are emptied: the tree store gets the
    /// header and, at offset 8, the record of the root, a leaf without keys. No
    /// error where the stores are steady and the tree store has room for both.
    pub fn new(treefile: F, keyfile: F, valfile: F) -> (r: Result<Self, Error>)
        ensures
            r matches Ok(t) ==> {
                &&& t.wf()
                &&& t.shaped()
                &&& t.ordered()
                &&& t.grows()
                &&& forall|k: K| #[trigger] t.finds(k) == Lookup::Absent
                &&& t.root_offset() == 8
                &&& t.root_node().loc == 8
                &&& t.root_node().len == 0
                &&& t.root_node().leaf
                &&& t.root_node().parent == crate::node::NONE
                &&& t.root_node().is_tidy()
                &&& t.tree_bytes() == spec_u64_to_le_bytes(8) + encoding(t.root_node())
                &&& t.tree_bytes().len() == 8 + NODE_SIZE
                &&& t.key_bytes() == Seq::<u8>::empty()
                &&& t.val_bytes() == Seq::<u8>::empty()
                &&& t.cached() == Map::<u64, Node>::empty()
                &&& t.cache_size() == NEW_CACHE_SIZE
                &&& t.steady() == (treefile.steady() && keyfile.steady() && valfile.steady())
                &&& t.tree_room() == treefile.room()
                &&& t.key_room() == keyfile.room()
                &&& t.val_room() == valfile.room()
            },
            treefile.steady() && keyfile.steady() && valfile.steady() && treefile.room() >= 8
                + NODE_SIZE ==> r is Ok,
    {
        let mut treefile = treefile;
        let mut keyfile = keyfile;
        let mut valfile = valfile;
        match treefile.truncate() {
            Ok(_) => {},
            Err(e) => {
                return Err(e);
            },
        }
        match keyfile.truncate() {
            Ok(_) => {},
            Err(e) => {
                return Err(e);
            },
        }
        match valfile.truncate() {
            Ok(_) => {},
            Err(e) => {
                return Err(e);
            },
        }
        let mut root = Node::new();
        root.loc = 8;
        let header = u64_to_le_bytes(8);
        match treefile.write_at(0, header.as_slice()) {
            Ok(_) => {},
            Err(e) => {
                return Err(e);
            },
        }
        let record = root.encode();
        match treefile.write_at(8, record.as_slice()) {
            Ok(_) => {},
            Err(e) => {
                return Err(e);
            },
        }
        let t = TestTree {
            keyfile,
            valfile,
            treefile,
            root_location: 8,
            root,
            node_cache: NodeCache::new(NEW_CACHE_SIZE),
            phantom_k: PhantomData,
            phantom_v: PhantomData,
        };
        proof {
            lemma_auto_spec_u64_to_from_le_bytes();
            lemma_decoding_of_encoding(root);
            let b = t.treefile.bytes();
            assert(b =~= spec_u64_to_le_bytes(8) + encoding(root));
            assert(b.subrange(0, 8) =~= spec_u64_to_le_bytes(8));
            assert(window(b, 8, NODE_SIZE as int) =~= encoding(root));
            assert forall|loc: int| #[trigger] in_file(b, loc) implies loc == 8 by {
                lemma_encoding_words(root, 0);
            }
            lemma_encoding_words(root, 0);
            assert(in_file(b, 8));
            assert(good::<K>(
                t.tree_bytes(),
                t.key_bytes(),
                t.root_offset() as int,
                0,
                None,
                None,
                0,
                t.tree_bytes().len() as int,
            ));
        }
        Ok(t)
    }

    /// The tree that the three stores hold. `Corrupt` where the tree store is not
    /// a header and whole records, or names no root: from a steady tree store
    /// there and nowhere else, see `tree_stands`.
    pub fn open(treefile: F, keyfile: F, valfile: F) -> (r: Result<Self, Error>)
        ensures
            r matches Ok(t) ==> {
                &&& t.wf()
                &&& t.tree_bytes() == treefile.bytes()
                &&& t.key_bytes() == keyfile.bytes()
                &&& t.val_bytes() == valfile.bytes()
                &&& t.root_offset() == word_at(treefile.bytes(), 0)
                &&& t.cached() == Map::<u64, Node>::empty()
                &&& t.cache_size() == OPEN_CACHE_SIZE
                &&& t.root_node() == node_at(
                    treefile.bytes(),
                    word_at(treefile.bytes(), 0) as int,
                )->0
                &&& tree_stands(treefile.bytes())
                &&& t.steady() == (treefile.steady() && keyfile.steady() && valfile.steady())
                &&& t.tree_room() == treefile.room()
                &&& t.key_room() == keyfile.room()
                &&& t.val_room() == valfile.room()
            },
            treefile.steady() ==> match r {
                Ok(_) => true,
                Err(e) => e is Corrupt && !tree_stands(treefile.bytes()),
            },
    {
        let mut treefile = treefile;
        let size = match treefile.size() {
            Ok(n) => n,
            Err(e) => {
                return Err(e);
            },
        };
        if size < 8 + NODE_SIZE as u64 || !is_on_grid(size) {
            return Err(Error::Corrupt);
        }
        let header = match read_exact(&mut treefile, 0, 8) {
            Ok(v) => v,
            Err(e) => {
                return Err(e);
            },
        };
        let root_location = u64_from_le_bytes(header.as_slice());
        if !is_on_grid(root_location) || root_location > size - NODE_SIZE as u64 {
            return Err(Error::Corrupt);
        }
        let record = match treefile.read_at(root_location, NODE_SIZE) {
            Ok(v) => v,
            Err(e) => {
                return Err(e);
            },
        };
        let root = match Node::decode(record.as_slice()) {
            Some(n) => n,
            None => {
                return Err(Error::Corrupt);
            },
        };
        if root.loc != root_location {
            return Err(Error::Corrupt);
        }
        Ok(
            TestTree {
                keyfile,
                valfile,
                treefile,
                root_location,
                node_cache: NodeCache::new(OPEN_CACHE_SIZE),
                root,
                phantom_k: PhantomData,
                phantom_v: PhantomData,
            },
        )
    }

    /// Appends the record of `k` to the key store and returns its offset.
    fn write_key(&mut self, k: &K) -> (r: Result<u64, Error>)
        ensures
            final(self).treefile == old(self).treefile,
            final(self).valfile == old(self).valfile,
            final(self).root_location == old(self).root_location,
            final(self).root == old(self).root,
            final(self).node_cache == old(self).node_cache,
            steady_as(&final(self).keyfile, &old(self).keyfile),
            old(self).keyfile.steady() && takes(&old(self).keyfile, k.encoding().len() as int)
                ==> r is Ok,
            r matches Ok(pos) ==> pos == old(self).keyfile.bytes().len()
                && final(self).keyfile.bytes() == old(self).keyfile.bytes() + k.encoding(),
    {
        let bytes = k.serialize();
        append(&mut self.keyfile, bytes.as_slice())
    }

    /// Appends the record of `v` to the value store and returns its offset.
    fn write_val(&mut self, v: &V) -> (r: Result<u64, Error>)
        ensures
            final(self).treefile == old(self).treefile,
            final(self).keyfile == old(self).keyfile,
            final(self).root_location == old(self).root_location,
            final(self).root == old(self).root,
            final(self).node_cache == old(self).node_cache,
            steady_as(&final(self).valfile, &old(self).valfile),
            old(self).valfile.steady() && takes(&old(self).valfile, v.encoding().len() as int)
                ==> r is Ok,
            r matches Ok(pos) ==> pos == old(self).valfile.bytes().len()
                && final(self).valfile.bytes() == old(self).valfile.bytes() + v.encoding(),
    {
        let bytes = v.serialize();
        append(&mut self.valfile, bytes.as_slice())
    }

    /// Appends the records of `k` and `v` to their stores and returns their
    /// offsets.
    fn write_entry(&mut self, k: &K, v: &V) -> (r: Result<(u64, u64), Error>)
        ensures
            final(self).treefile == old(self).treefile,
            final(self).root_location == old(self).root_location,
            final(self).root == old(self).root,
            final(self).node_cache == old(self).node_cache,
            steady_as(&final(self).keyfile, &old(self).keyfile),
            steady_as(&final(self).valfile, &old(self).valfile),
            old(self).keyfile.steady() && takes(&old(self).keyfile, k.encoding().len() as int)
                && old(self).valfile.steady() && takes(
                &old(self).valfile,
                v.encoding().len() as int,
            ) ==> r is Ok,
            r matches Ok(at) ==> {
                &&& at.0 == old(self).keyfile.bytes().len()
                &&& at.1 == old(self).valfile.bytes().len()
                &&& final(self).keyfile.bytes() == old(self).keyfile.bytes() + k.encoding()
                &&& final(self).valfile.bytes() == old(self).valfile.bytes() + v.encoding()
            },
    {
        let key_pos = match self.write_key(k) {
            Ok(p) => p,
            Err(e) => {
                return Err(e);
            },
        };
        let val_pos = match self.write_val(v) {
            Ok(p) => p,
            Err(e) => {
                return Err(e);
            },
        };
        Ok((key_pos, val_pos))
    }

    /// Appends the record of `node` to the tree store, sets `loc` in `node` to the
    /// offset at which it stands, and returns that offset.
    fn write_node(&mut self, node: &mut Node) -> (r: Result<u64, Error>)
        requires
            old(self).stores_agree(),
            old(node).valid(),
        ensures
            final(self).keyfile == old(self).keyfile,
            final(self).valfile == old(self).valfile,
            final(self).root_location == old(self).root_location,
            final(self).root == old(self).root,
            final(self).node_cache == old(self).node_cache,
            steady_as(&final(self).treefile, &old(self).treefile),
            old(self).treefile.steady() && takes(&old(self).treefile, NODE_SIZE as int) ==> r is Ok,
            r is Err ==> *final(node) == *old(node),
            r matches Ok(pos) ==> {
                &&& final(self).stores_agree()
                &&& pos == old(self).treefile.bytes().len()
                &&& *final(node) == Node { loc: pos, ..*old(node) }
                &&& final(self).treefile.bytes() == old(self).treefile.bytes() + encoding(
                    *final(node),
                )
                &&& in_file(final(self).treefile.bytes(), pos as int)
                &&& node_at(final(self).treefile.bytes(), pos as int) == Some(*final(node))
                &&& word_at(final(self).treefile.bytes(), 0) == word_at(
                    old(self).treefile.bytes(),
                    0,
                )
                &&& forall|other: int|
                    in_file(old(self).treefile.bytes(), other) ==> in_file(
                        final(self).treefile.bytes(),
                        other,
                    ) && #[trigger] node_at(final(self).treefile.bytes(), other) == node_at(
                        old(self).treefile.bytes(),
                        other,
                    )
            },
    {
        let pos = match self.treefile.size() {
            Ok(n) => n,
            Err(e) => {
                return Err(e);
            },
        };
        if pos > u64::MAX - NODE_SIZE as u64 {
            return Err(Error::InvalidSeek);
        }
        let before = *node;
        node.loc = pos;
        let record = node.encode();
        let ghost b = self.treefile.bytes();
        match self.treefile.write_at(pos, record.as_slice()) {
            Ok(_) => {},
            Err(e) => {
                *node = before;
                return Err(e);
            },
        }
        proof {
            lemma_overwritten_at_end(b, record@);
            lemma_node_written(b, pos as int, *node, 0);
            assert forall|other: int| in_file(b, other) implies in_file(
                self.treefile.bytes(),
                other,
            ) && #[trigger] node_at(self.treefile.bytes(), other) == node_at(b, other) by {
                lemma_node_written(b, pos as int, *node, other);
            }
        }
        Ok(pos)
    }

    /// Writes the record of `node` at its offset and replaces the copy of it that
    /// the cache may hold.
    fn update_node(&mut self, node: &Node) -> (r: Result<(), Error>)
        requires
            old(self).stores_agree(),
            node.valid(),
            in_file(old(self).treefile.bytes(), node.loc as int),
        ensures
            final(self).keyfile == old(self).keyfile,
            final(self).valfile == old(self).valfile,
            final(self).root_location == old(self).root_location,
            final(self).root == old(self).root,
            final(self).node_cache.limit() == old(self).node_cache.limit(),
            steady_as(&final(self).treefile, &old(self).treefile),
            old(self).treefile.steady() && node.loc + NODE_SIZE <= old(self).treefile.room()
                ==> r is Ok,
            r is Ok ==> {
                &&& final(self).stores_agree()
                &&& final(self).treefile.bytes() == overwritten(
                    old(self).treefile.bytes(),
                    node.loc as int,
                    encoding(*node),
                )
                &&& final(self).treefile.bytes().len() == old(self).treefile.bytes().len()
                &&& node_at(final(self).treefile.bytes(), node.loc as int) == Some(*node)
                &&& word_at(final(self).treefile.bytes(), 0) == word_at(
                    old(self).treefile.bytes(),
                    0,
                )
                &&& forall|other: int|
                    in_file(old(self).treefile.bytes(), other) && other != node.loc
                        ==> #[trigger] node_at(final(self).treefile.bytes(), other) == node_at(
                        old(self).treefile.bytes(),
                        other,
                    )
            },
    {
        let record = node.encode();
        let ghost b = self.treefile.bytes();
        match self.treefile.write_at(node.loc, record.as_slice()) {
            Ok(_) => {},
            Err(e) => {
                return Err(e);
            },
        }
        self.node_cache.update(node);
        proof {
            lemma_node_written(b, node.loc as int, *node, 0);
            assert forall|other: int| in_file(b, other) && other != node.loc implies #[trigger] node_at(
                self.treefile.bytes(),
                other,
            ) == node_at(b, other) by {
                lemma_node_written(b, node.loc as int, *node, other);
            }
            assert forall|loc: u64| #[trigger]
                self.node_cache.entries().contains_key(loc) implies in_file(
                self.treefile.bytes(),
                loc as int,
            ) && node_at(self.treefile.bytes(), loc as int) == Some(
                self.node_cache.entries()[loc],
            ) by {
                assert(old(self).node_cache.entries().contains_key(loc));
                if loc != node.loc {
                    assert(node_at(self.treefile.bytes(), loc as int) == node_at(b, loc as int));
                }
            }
        }
        Ok(())
    }

    /// The node at offset `pos`, from the cache or else from the tree store.
    /// `Corrupt` where no record can start at `pos`, or the node there says that
    /// it stands elsewhere.
    fn node(&mut self, pos: u64) -> (r: Result<Node, Error>)
        requires
            old(self).stores_agree(),
        ensures
            final(self).stores_agree(),
            final(self).treefile.bytes() == old(self).treefile.bytes(),
            final(self).keyfile == old(self).keyfile,
            final(self).valfile == old(self).valfile,
            final(self).root_location == old(self).root_location,
            final(self).root == old(self).root,
            final(self).node_cache.limit() == old(self).node_cache.limit(),
            steady_as(&final(self).treefile, &old(self).treefile),
            old(self).treefile.steady() ==> match r {
                Ok(_) => true,
                Err(e) => e is Corrupt && !(on_grid(pos as int) && node_at(
                    old(self).treefile.bytes(),
                    pos as int,
                ) is Some && node_at(old(self).treefile.bytes(), pos as int)->0.loc == pos),
            },
            r matches Ok(n) ==> {
                &&& node_at(old(self).treefile.bytes(), pos as int) == Some(n)
                &&& in_file(old(self).treefile.bytes(), pos as int)
                &&& n.loc == pos
                &&& n.valid()
            },
    {
        if !is_on_grid(pos) {
            return Err(Error::Corrupt);
        }
        let ghost b = self.treefile.bytes();
        let n = match self.node_cache.get(pos, &mut self.treefile) {
            Ok(n) => n,
            Err(e) => {
                return Err(e);
            },
        };
        proof {
            Self::lemma_node_in_file(b, pos as int, n);
            assert forall|loc: u64| #[trigger]
                self.node_cache.entries().contains_key(loc) implies in_file(b, loc as int)
                && node_at(b, loc as int) == Some(self.node_cache.entries()[loc]) by {
                if !old(self).node_cache.entries().contains_key(loc) {
                    assert(loc == pos);
                }
            }
        }
        if n.loc != pos {
            return Err(Error::Corrupt);
        }
        Ok(n)
    }

    /// A node that the store holds is valid, and its record ends within the store.
    proof fn lemma_node_in_file(b: Seq<u8>, pos: int, n: Node)
        requires
            0 <= pos,
            node_at(b, pos) == Some(n),
        ensures
            n.valid(),
            pos + NODE_SIZE <= b.len(),
    {
        lemma_encoding_words(n, 0);
        let m = choose|m: Node| m.valid() && encoding(m) == window(b, pos, NODE_SIZE as int);
        lemma_encoding_words(m, 0);
    }

    /// The node at offset `pos` of the tree store.
    fn read_node(&mut self, pos: u64) -> (r: Result<Node, Error>)
        ensures
            final(self).treefile.bytes() == old(self).treefile.bytes(),
            final(self).keyfile == old(self).keyfile,
            final(self).valfile == old(self).valfile,
            final(self).root_location == old(self).root_location,
            final(self).root == old(self).root,
            final(self).node_cache == old(self).node_cache,
            steady_as(&final(self).treefile, &old(self).treefile),
            old(self).treefile.steady() ==> match r {
                Ok(_) => true,
                Err(e) => e is Corrupt && node_at(old(self).treefile.bytes(), pos as int) is None,
            },
            r matches Ok(n) ==> {
                &&& node_at(old(self).treefile.bytes(), pos as int) == Some(n)
                &&& n.valid()
                &&& pos + NODE_SIZE <= old(self).treefile.bytes().len()
            },
    {
        match self.treefile.read_at(pos, NODE_SIZE) {
            Ok(bytes) => match Node::decode(bytes.as_slice()) {
                Some(n) => {
                    proof {
                        Self::lemma_node_in_file(old(self).treefile.bytes(), pos as int, n);
                    }
                    Ok(n)
                },
                None => Err(Error::Corrupt),
            },
            Err(e) => Err(e),
        }
    }

    /// The value whose record stands at offset `pos` of the value store.
    fn read_value(&mut self, pos: u64) -> (r: Result<V, Error>)
        ensures
            final(self).valfile.bytes() == old(self).valfile.bytes(),
            final(self).treefile == old(self).treefile,
            final(self).keyfile == old(self).keyfile,
            final(self).root_location == old(self).root_location,
            final(self).root == old(self).root,
            final(self).node_cache == old(self).node_cache,
            steady_as(&final(self).valfile, &old(self).valfile),
            old(self).valfile.steady() && V::reads_from(old(self).valfile.bytes()) && value_at::<V>(
                old(self).valfile.bytes(),
                pos as int,
            ) is Some ==> r is Ok,
            old(self).valfile.steady() ==> (r matches Err(e) ==> e is Corrupt),
            r matches Ok(v) ==> holds_at(old(self).valfile.bytes(), pos as int, v.encoding()),
    {
        V::deserialize(&mut self.valfile, pos)
    }

    /// The key whose record stands at offset `pos` of the key store.
    fn read_key(&mut self, pos: u64) -> (r: Result<K, Error>)
        ensures
            final(self).keyfile.bytes() == old(self).keyfile.bytes(),
            final(self).treefile == old(self).treefile,
            final(self).valfile == old(self).valfile,
            final(self).root_location == old(self).root_location,
            final(self).root == old(self).root,
            final(self).node_cache == old(self).node_cache,
            steady_as(&final(self).keyfile, &old(self).keyfile),
            old(self).keyfile.steady() && K::reads_from(old(self).keyfile.bytes()) && value_at::<K>(
                old(self).keyfile.bytes(),
                pos as int,
            ) is Some ==> r is Ok,
            old(self).keyfile.steady() ==> (r matches Err(e) ==> e is Corrupt),
            r matches Ok(k) ==> holds_at(old(self).keyfile.bytes(), pos as int, k.encoding()),
    {
        K::deserialize(&mut self.keyfile, pos)
    }

    /// Every node of the tree store has the shape that the tree gives its nodes:
    /// see `shape_ok`. A new tree is shaped, and insertions keep it so.
    pub open spec fn shaped(&self) -> bool {
        all_nodes_ok(self.treefile.bytes(), self.root_location as int)
    }

    /// In a shaped tree every record of the tree store is that of a node with no
    /// more keys than a node can hold and, but for the root, `T - 1` at least,
    /// whose unused slots hold `NONE` and whose children stand in the store.
    pub proof fn lemma_shape(&self, loc: int)
        requires
            self.shaped(),
            in_file(self.tree_bytes(), loc),
        ensures
            node_at(self.tree_bytes(), loc) is Some,
            node_at(self.tree_bytes(), loc)->0.len <= NUM_KEYS,
            shape_ok(
                self.tree_bytes(),
                self.root_offset() as int,
                loc,
                node_at(self.tree_bytes(), loc)->0,
            ),
    {
    }

    /// A tree opened from the stores of a shaped tree is shaped.
    pub proof fn lemma_reopened_is_shaped(&self, other: &Self)
        requires
            self.wf(),
            other.wf(),
            other.shaped(),
            self.tree_bytes() == other.tree_bytes(),
        ensures
            self.shaped(),
    {
    }

    /// The tree is good: its keys read and ascend, every node holds the keys
    /// between the keys of its parent on either side of it, and all leaves stand
    /// at one depth, which is `MAX_HEIGHT` at most. A new tree is ordered, and the
    /// insertion of a key that it does not hold keeps a tree so.
    pub open spec fn ordered(&self) -> bool {
        exists|h: nat|
            h <= MAX_HEIGHT && #[trigger] good::<K>(
                self.tree_bytes(),
                self.key_bytes(),
                self.root_offset() as int,
                h,
                None,
                None,
                0,
                self.tree_bytes().len() as int,
            )
    }

    /// A value appended to the value store stands at the old end of the store, and
    /// every value that stood in the store stands where it stood.
    proof fn lemma_values_stay(vals: Seq<u8>, v: V)
        ensures
            holds_at(vals + v.encoding(), vals.len() as int, v.encoding()),
            forall|at: int, w: V|
                holds_at(vals, at, w.encoding()) ==> #[trigger] holds_at(
                    vals + v.encoding(),
                    at,
                    w.encoding(),
                ),
    {
        crate::codec::lemma_appended::<V>(vals, v, 0, v);
        assert forall|at: int, w: V| holds_at(vals, at, w.encoding()) implies #[trigger] holds_at(
            vals + v.encoding(),
            at,
            w.encoding(),
        ) by {
            crate::codec::lemma_appended::<V>(vals, v, at, w);
        }
    }

    /// The tree is ordered and may grow by a level: its leaves stand less than
    /// `MAX_HEIGHT` levels below the root.
    pub open spec fn grows(&self) -> bool {
        exists|h: nat|
            h < MAX_HEIGHT && #[trigger] good::<K>(
                self.tree_bytes(),
                self.key_bytes(),
                self.root_offset() as int,
                h,
                None,
                None,
                0,
                self.tree_bytes().len() as int,
            )
    }

    /// The stores have room for the records of `k` and `v` and for the nodes that
    /// an insertion may append: one for each level, and two for a new root.
    pub open spec fn has_room(&self, k: K, v: V) -> bool {
        &&& self.key_bytes().len() + k.encoding().len() <= self.key_room()
        &&& self.key_bytes().len() + k.encoding().len() <= u64::MAX
        &&& self.val_bytes().len() + v.encoding().len() <= self.val_room()
        &&& self.val_bytes().len() + v.encoding().len() <= u64::MAX
        &&& self.tree_bytes().len() + (MAX_HEIGHT + 2) * NODE_SIZE <= self.tree_room()
        &&& self.tree_bytes().len() + (MAX_HEIGHT + 2) * NODE_SIZE <= u64::MAX
    }

    /// Writing the record of a node where it stands changes nothing.
    proof fn lemma_same_record(b: Seq<u8>, loc: int, n: Node)
        requires
            0 <= loc,
            node_at(b, loc) == Some(n),
        ensures
            overwritten(b, loc, encoding(n)) == b,
    {
        Self::lemma_node_in_file(b, loc, n);
        lemma_encoding_words(n, 0);
        let m = choose|m: Node| m.valid() && encoding(m) == window(b, loc, NODE_SIZE as int);
        assert(encoding(n) == window(b, loc, NODE_SIZE as int));
        assert(overwritten(b, loc, encoding(n)) =~= b);
    }

    /// What the search for `k` comes to in this tree.
    pub open spec fn finds(&self, k: K) -> Lookup {
        lookup(self.tree_bytes(), self.key_bytes(), self.root_node(), k, MAX_HEIGHT as nat)
    }

    /// The tree holds the value `v` for the key `k`: the search for `k` finds a
    /// value, and the record that stands at its offset is that of `v`.
    pub open spec fn holds_value(&self, k: K, v: V) -> bool {
        &&& self.finds(k) matches Lookup::Found(at)
        &&& holds_at(self.val_bytes(), at as int, v.encoding())
    }

    /// The room of the tree store.
    pub open spec fn tree_room(&self) -> int {
        self.treefile.room()
    }

    /// The room of the key store.
    pub open spec fn key_room(&self) -> int {
        self.keyfile.room()
    }

    /// The room of the value store.
    pub open spec fn val_room(&self) -> int {
        self.valfile.room()
    }

    /// The three stores are steady: no call on the tree fails for the sake of a
    /// store, but for want of room.
    pub open spec fn steady(&self) -> bool {
        self.treefile.steady() && self.keyfile.steady() && self.valfile.steady()
    }

    /// Each store of `self` is steady where that of `other` is, with the room of
    /// that one.
    pub open spec fn stores_as(&self, other: &Self) -> bool {
        &&& steady_as(&self.treefile, &other.treefile)
        &&& steady_as(&self.keyfile, &other.keyfile)
        &&& steady_as(&self.valfile, &other.valfile)
    }

    /// Stores that are as steady as others are steady where those are, and have
    /// their rooms.
    pub proof fn lemma_stores_as(&self, other: &Self)
        requires
            self.stores_as(other),
        ensures
            self.steady() == other.steady(),
            self.tree_room() == other.tree_room(),
            self.key_room() == other.key_room(),
            self.val_room() == other.val_room(),
    {
    }

    /// The stores and the root of `self` are those of `other`.
    pub open spec fn same_stores(&self, other: &Self) -> bool {
        &&& self.tree_bytes() == other.tree_bytes()
        &&& self.key_bytes() == other.key_bytes()
        &&& self.val_bytes() == other.val_bytes()
        &&& self.root_node() == other.root_node()
        &&& self.root_offset() == other.root_offset()
        &&& self.cache_size() == other.cache_size()
    }

    /// Offset of the value of `k`, searching from the node `n` down through at
    /// most `fuel` more levels. `Corrupt` where the way down is longer.
    fn search_rec(&mut self, n: Node, k: &K, fuel: u64) -> (r: Result<Option<u64>, Error>)
        requires
            old(self).stores_agree(),
            n.valid(),
        ensures
            final(self).stores_agree(),
            final(self).same_stores(old(self)),
            final(self).stores_as(old(self)),
            n.len == 0 ==> r matches Ok(None),
            is_keyed::<K>() ==> (r matches Ok(found) ==> lookup(
                old(self).tree_bytes(),
                old(self).key_bytes(),
                n,
                *k,
                fuel as nat,
            ) == as_lookup(found)),
            old(self).steady() && is_keyed::<K>() && K::reads_from(old(self).key_bytes()) ==> match r {
                Ok(_) => true,
                Err(e) => e is Corrupt && lookup(
                    old(self).tree_bytes(),
                    old(self).key_bytes(),
                    n,
                    *k,
                    fuel as nat,
                ) is Broken,
            },
        decreases fuel,
    {
        if n.len == 0 {
            return Ok(None);
        }
        let ghost keys = self.keyfile.bytes();
        let ghost tree = self.treefile.bytes();
        let ghost sure = self.steady() && is_keyed::<K>() && K::reads_from(self.keyfile.bytes());
        let mut held = match self.read_key(n.keys[0]) {
            Ok(x) => x,
            Err(e) => {
                return Err(e);
            },
        };
        let mut i: usize = 0;
        loop
            invariant
                self.stores_agree(),
                self.same_stores(old(self)),
                self.stores_as(old(self)),
                sure == (old(self).steady() && is_keyed::<K>() && K::reads_from(old(self).key_bytes())),
                self.keyfile.bytes() == keys,
                self.treefile.bytes() == tree,
                n.valid(),
                0 < n.len,
                i <= n.len,
                i < n.len ==> holds_at(keys, n.keys[i as int] as int, held.encoding()),
                is_keyed::<K>() ==> stop_index(keys, n, *k, i as int) == stop_index(
                    keys,
                    n,
                    *k,
                    0,
                ),
            ensures
                i < n.len ==> holds_at(keys, n.keys[i as int] as int, held.encoding()),
                is_keyed::<K>() ==> stop_index(keys, n, *k, 0) == Some(i as int),
                is_keyed::<K>() && i < n.len ==> !follows(*k, held),
            decreases n.len - i,
        {
            if i >= n.len as usize {
                break ;
            }
            proof {
                if is_keyed::<K>() {
                    lemma_value_at(keys, n.keys[i as int] as int, held);
                }
            }
            if !(*k > held) {
                break ;
            }
            i += 1;
            if i < n.len as usize {
                held = match self.read_key(n.keys[i]) {
                    Ok(x) => x,
                    Err(e) => {
                        return Err(e);
                    },
                };
            }
        }
        proof {
            if is_keyed::<K>() && i < n.len {
                lemma_value_at(keys, n.keys[i as int] as int, held);
            }
        }
        if i < n.len as usize && *k == held {
            Ok(Some(n.values[i]))
        } else if n.leaf {
            Ok(None)
        } else {
            if fuel == 0 {
                return Err(Error::Corrupt);
            }
            let next = match self.node(n.children[i]) {
                Ok(x) => x,
                Err(e) => {
                    return Err(e);
                },
            };
            self.search_rec(next, k, fuel - 1)
        }
    }

    /// The value held for `k`, or `None` where the tree holds none: always `None`
    /// where the root holds no key. With steady stores and types that read their
    /// records from them, the search fails only where the stores hold no tree on
    /// its way or no value where it ends, and then with `Corrupt`.
    pub fn search(&mut self, k: &K) -> (r: Result<Option<V>, Error>)
        requires
            old(self).wf(),
        ensures
            final(self).wf(),
            final(self).same_stores(old(self)),
            final(self).stores_as(old(self)),
            old(self).root_node().len == 0 ==> r matches Ok(None),
            old(self).steady() && is_keyed::<K>() && K::reads_from(old(self).key_bytes())
                && V::reads_from(old(self).val_bytes()) ==> match r {
                Ok(_) => true,
                Err(e) => e is Corrupt && (old(self).finds(*k) matches Lookup::Found(at)
                    ==> value_at::<V>(old(self).val_bytes(), at as int) is None),
            },
            old(self).steady() && is_keyed::<K>() && K::reads_from(old(self).key_bytes())
                && V::reads_from(old(self).val_bytes()) && r is Err
                ==> !(old(self).finds(*k) is Absent),
            is_keyed::<K>() ==> (r matches Ok(Some(v)) ==> {
                &&& old(self).finds(*k) matches Lookup::Found(at)
                &&& holds_at(old(self).val_bytes(), at as int, v.encoding())
            }),
            is_keyed::<K>() ==> (r matches Ok(None) ==> old(self).finds(*k) == Lookup::Absent),
            is_keyed::<K>() && is_self_delimiting::<V>() ==> forall|v: V|
                #[trigger] old(self).holds_value(*k, v) && r is Ok ==> r == Ok::<Option<V>, Error>(
                    Some(v),
                ),
    {
        let root = self.root;
        proof {
            Self::lemma_node_in_file(self.treefile.bytes(), self.root_location as int, root);
        }
        let found = match self.search_rec(root, k, MAX_HEIGHT) {
            Ok(x) => x,
            Err(e) => {
                return Err(e);
            },
        };
        match found {
            Some(at) => match self.read_value(at) {
                Ok(v) => {
                    proof {
                        if is_keyed::<K>() {
                            assert(old(self).finds(*k) == Lookup::Found(at));
                            assert(holds_at(old(self).val_bytes(), at as int, v.encoding()));
                        }
                        if is_keyed::<K>() && is_self_delimiting::<V>() {
                            assert forall|w: V| #[trigger]
                                old(self).holds_value(*k, w) implies w == v by {
                                assert(holds_at(old(self).val_bytes(), at as int, w.encoding()));
                            }
                        }
                    }
                    Ok(Some(v))
                },
                Err(e) => Err(e),
            },
            None => {
                assert(is_keyed::<K>() ==> old(self).finds(*k) == Lookup::Absent);
                Ok(None)
            },
        }
    }

    /// Whether the search for `k` from the node at offset `pos` down, through at
    /// most `fuel` more levels, finds it.
    fn contains_key_rec(&mut self, k: &K, pos: u64, fuel: u64) -> (r: Result<bool, Error>)
        requires
            old(self).stores_agree(),
        ensures
            final(self).stores_agree(),
            final(self).same_stores(old(self)),
            final(self).stores_as(old(self)),
            old(self).treefile.steady() && on_grid(pos as int) && node_at(
                old(self).tree_bytes(),
                pos as int,
            ) is Some && node_at(old(self).tree_bytes(), pos as int)->0.loc == pos && node_at(
                old(self).tree_bytes(),
                pos as int,
            )->0.len == 0 ==> r matches Ok(false),
            old(self).steady() && is_keyed::<K>() && K::reads_from(old(self).key_bytes()) ==> match r {
                Ok(_) => true,
                Err(e) => e is Corrupt && !(on_grid(pos as int) && node_at(
                    old(self).tree_bytes(),
                    pos as int,
                ) is Some && node_at(old(self).tree_bytes(), pos as int)->0.loc == pos && !(lookup(
                    old(self).tree_bytes(),
                    old(self).key_bytes(),
                    node_at(old(self).tree_bytes(), pos as int)->0,
                    *k,
                    fuel as nat,
                ) is Broken)),
            },
            is_keyed::<K>() ==> (r matches Ok(held) ==> {
                &&& node_at(old(self).tree_bytes(), pos as int) is Some
                &&& held == (lookup(
                    old(self).tree_bytes(),
                    old(self).key_bytes(),
                    node_at(old(self).tree_bytes(), pos as int)->0,
                    *k,
                    fuel as nat,
                ) is Found)
            }),
    {
        let x = match self.node(pos) {
            Ok(x) => x,
            Err(e) => {
                return Err(e);
            },
        };
        match self.search_rec(x, k, fuel) {
            Ok(found) => {
                assert(x.valid());
                Ok(found.is_some())
            },
            Err(e) => Err(e),
        }
    }

    /// Whether the tree holds a value for `k`. The root is read from the cache or
    /// the tree store: where that store is steady and the root holds no key, the
    /// answer is `false`. With steady stores and keys that read their records
    /// from the key store, it fails only where the stores hold no tree on the way
    /// of the search, and then with `Corrupt`.
    pub fn contains_key(&mut self, k: &K) -> (r: Result<bool, Error>)
        requires
            old(self).wf(),
        ensures
            final(self).wf(),
            final(self).same_stores(old(self)),
            final(self).stores_as(old(self)),
            old(self).treefile.steady() && old(self).root_node().len == 0 ==> r matches Ok(false),
            old(self).steady() && is_keyed::<K>() && K::reads_from(old(self).key_bytes()) ==> match r {
                Ok(_) => true,
                Err(e) => e is Corrupt && old(self).finds(*k) is Broken,
            },
            is_keyed::<K>() ==> (r matches Ok(held) ==> held == (old(self).finds(*k) is Found)),
    {
        let root = self.root_location;
        self.contains_key_rec(k, root, MAX_HEIGHT)
    }

    /// `contains_key` and `search` agree: where a search comes to `found`, and so
    /// tells whether the key is held, as both do, `contains_key` says that the key
    /// is held exactly where `search` returns a value.
    pub proof fn lemma_contains_agrees_with_search(
        &self,
        k: K,
        held: bool,
        found: Option<V>,
    )
        requires
            held == (self.finds(k) is Found),
            match found {
                Some(v) => {
                    &&& self.finds(k) matches Lookup::Found(at)
                    &&& holds_at(self.val_bytes(), at as int, v.encoding())
                },
                None => self.finds(k) == Lookup::Absent,
            },
        ensures
            held == found.is_some(),
    {
    }

    /// A tree that was opened from the stores of another finds what that one
    /// finds, and is ordered if that one is.
    pub proof fn lemma_reopened_finds_the_same(&self, other: &Self, k: K)
        requires
            self.wf(),
            other.wf(),
            self.tree_bytes() == other.tree_bytes(),
            self.key_bytes() == other.key_bytes(),
        ensures
            self.root_node() == other.root_node(),
            self.root_offset() == other.root_offset(),
            self.finds(k) == other.finds(k),
            self.ordered() == other.ordered(),
    {
    }

    /// What the tree holds is what a search returns: where the tree holds the
    /// value `v` for `k`, a search for `k` that came to `found` found `v`.
    /// Insertions make a tree hold a value, and keep every value that it holds
    /// for another key: see `insert`.
    pub proof fn lemma_search_returns_what_is_held(&self, k: K, v: V, found: Option<V>)
        requires
            is_self_delimiting::<V>(),
            self.holds_value(k, v),
            match found {
                Some(got) => {
                    &&& self.finds(k) matches Lookup::Found(at)
                    &&& holds_at(self.val_bytes(), at as int, got.encoding())
                },
                None => self.finds(k) == Lookup::Absent,
            },
        ensures
            found == Some(v),
    {
    }

    /// In an ordered tree the keys of the root read and ascend strictly, the root
    /// is a leaf exactly where the tree is one level high, and each child of it
    /// is the root of a good subtree between the keys on either side of it.
    pub proof fn lemma_ordered_root(&self, h: nat)
        requires
            self.wf(),
            good::<K>(
                self.tree_bytes(),
                self.key_bytes(),
                self.root_offset() as int,
                h,
                None,
                None,
                0,
                self.tree_bytes().len() as int,
            ),
        ensures
            crate::order::reads::<K>(self.key_bytes(), self.root_node()),
            crate::order::sorted_within::<K>(
                keys_of::<K>(self.key_bytes(), self.root_node()),
                None,
                None,
            ),
            (h == 0) == self.root_node().leaf,
            h > 0 ==> forall|i: int|
                0 <= i <= self.root_node().len ==> good::<K>(
                    self.tree_bytes(),
                    self.key_bytes(),
                    #[trigger] self.root_node().children[i] as int,
                    (h - 1) as nat,
                    lo_of(keys_of::<K>(self.key_bytes(), self.root_node()), None, i),
                    hi_of(keys_of::<K>(self.key_bytes(), self.root_node()), None, i),
                    crate::node::T - 1,
                    self.tree_bytes().len() as int,
                ),
    {
    }

    /// The leaf `x` takes the entry of `k` and `v` without fail: the stores are
    /// steady, the keys of `x` read, and the key store and the value store have
    /// room for the records, the tree store for the record of `x` where it
    /// stands.
    pub open spec fn leaf_takes(&self, x: Node, k: K, v: V) -> bool {
        &&& x.leaf
        &&& self.steady()
        &&& K::reads_from(self.key_bytes())
        &&& reads::<K>(self.key_bytes(), x)
        &&& takes(&self.keyfile, k.encoding().len() as int)
        &&& takes(&self.valfile, v.encoding().len() as int)
        &&& x.loc + NODE_SIZE <= self.tree_room()
    }

    /// An entry of `k` and `v` goes below the node `x` without fail: every child
    /// of `x` is a leaf that stands where `x` says and is not full, the keys of
    /// `x` and of these read, the stores are steady, and the key store and the
    /// value store have room for the records, the tree store for what it holds.
    pub open spec fn leaf_below_takes(&self, x: Node, k: K, v: V) -> bool {
        &&& !x.leaf
        &&& self.steady()
        &&& K::reads_from(self.key_bytes())
        &&& reads::<K>(self.key_bytes(), x)
        &&& forall|i: int|
            0 <= i <= x.len ==> #[trigger] leaf_stands::<K>(
                self.tree_bytes(),
                self.key_bytes(),
                x.children[i] as int,
            )
        &&& takes(&self.keyfile, k.encoding().len() as int)
        &&& takes(&self.valfile, v.encoding().len() as int)
        &&& takes(&self.treefile, 0)
    }

    /// The keys of a leaf that read from a key store read from it once the record
    /// of `k` was appended and the leaf took its offset.
    pub proof fn lemma_leaf_reads(keys: Seq<u8>, before: Node, after: Node, k: K, value: u64)
        requires
            reads::<K>(keys, before),
            after.valid(),
            after.len == before.len + 1,
            holds_with(after, before.live_keys(), before.live_values(), keys.len() as u64, value),
            keys.len() <= u64::MAX,
        ensures
            reads::<K>(keys + k.encoding(), after),
    {
        let grown = keys + k.encoding();
        let at = choose|i: int|
            0 <= i <= before.live_keys().len() && after.live_keys()
                == #[trigger] before.live_keys().insert(i, keys.len() as u64)
                && after.live_values() == before.live_values().insert(i, value);
        assert forall|j: int| 0 <= j < after.len implies (#[trigger] value_at::<K>(
            grown,
            after.keys[j] as int,
        )) is Some by {
            assert(after.keys[j] == after.live_keys()[j]);
            if j == at {
                crate::codec::lemma_appended::<K>(keys, k, 0, k);
                assert(holds_at(grown, after.keys[j] as int, k.encoding()));
            } else {
                let was = if j < at {
                    j
                } else {
                    j - 1
                };
                assert(after.live_keys()[j] == before.live_keys()[was]);
                assert(before.live_keys()[was] == before.keys[was]);
                assert(value_at::<K>(keys, before.keys[was] as int) is Some);
                let held = choose|y: K| holds_at(keys, before.keys[was] as int, y.encoding());
                crate::codec::lemma_appended::<K>(keys, k, before.keys[was] as int, held);
                assert(holds_at(grown, after.keys[j] as int, held.encoding()));
            }
        }
    }

    /// A node without keys over one child, `whole`, is after the split of that
    /// child a node with one key, the median of `whole`, over the two halves,
    /// neither of which is full.
    proof fn lemma_top(
        tree: Seq<u8>,
        split: Seq<u8>,
        keys: Seq<u8>,
        empty: Node,
        top: Node,
        whole: Node,
    )
        requires
            split_done(tree, split, empty, top, 0),
            !empty.leaf,
            empty.len == 0,
            node_at(tree, empty.children[0] as int) == Some(whole),
            top.valid(),
            holds_nodes(tree),
            on_grid(empty.children[0] as int),
            whole.loc == empty.children[0],
        ensures
            whole.leaf && reads::<K>(keys, whole) ==> reads::<K>(keys, top) && forall|i: int|
                0 <= i <= top.len ==> #[trigger] leaf_stands::<K>(
                    split,
                    keys,
                    top.children[i] as int,
                ),
            top.len == 1,
            !top.leaf,
            top.loc == empty.loc,
            top.children[0] == empty.children[0],
            top.children[1] == tree.len(),
            top.keys[0] == whole.keys[crate::node::T - 1],
            top.values[0] == whole.values[crate::node::T - 1],
            has_no_full_child(split, top),
    {
        assert(empty.live_children() =~= seq![empty.children[0]]);
        assert(empty.live_keys() =~= Seq::<u64>::empty());
        assert(empty.live_values() =~= Seq::<u64>::empty());
        assert(top.live_children()[0] == top.children[0]);
        assert(top.live_children()[1] == top.children[1]);
        assert(top.live_keys()[0] == top.keys[0]);
        assert(top.live_values()[0] == top.values[0]);
        assert forall|i: int| 0 <= i <= top.len implies !#[trigger] full_at(
            split,
            top.children[i] as int,
        ) by {
            if i == 0 {
                assert(node_at(split, top.children[0] as int)->0.len == crate::node::T - 1);
            } else {
                assert(node_at(split, top.children[1] as int)->0.len == crate::node::T - 1);
            }
        }
        if whole.leaf && reads::<K>(keys, whole) {
            let lower = node_at(split, top.children[0] as int)->0;
            let upper = node_at(split, top.children[1] as int)->0;
            assert(value_at::<K>(keys, whole.keys[crate::node::T - 1] as int) is Some);
            assert forall|j: int| 0 <= j < lower.len implies (#[trigger] value_at::<K>(
                keys,
                lower.keys[j] as int,
            )) is Some by {
                assert(lower.keys[j] == lower.live_keys()[j]);
                assert(lower.live_keys()[j] == whole.keys[j]);
                assert(value_at::<K>(keys, whole.keys[j] as int) is Some);
            }
            assert forall|j: int| 0 <= j < upper.len implies (#[trigger] value_at::<K>(
                keys,
                upper.keys[j] as int,
            )) is Some by {
                assert(upper.keys[j] == upper.live_keys()[j]);
                assert(upper.live_keys()[j] == whole.keys[j + crate::node::T]);
                assert(value_at::<K>(keys, whole.keys[j + crate::node::T] as int) is Some);
            }
            assert forall|i: int| 0 <= i <= top.len implies #[trigger] leaf_stands::<K>(
                split,
                keys,
                top.children[i] as int,
            ) by {
                if i == 0 {
                    assert(leaf_stands::<K>(split, keys, top.children[0] as int));
                } else {
                    assert(leaf_stands::<K>(split, keys, top.children[1] as int));
                }
            }
        }
    }

    /// Where the two halves of a full leaf `whole` stand in `split` below the node
    /// `top`, one of them took an entry on the way to `settled`, and the record of
    /// `top` was then written where it stands, the halves are in `after` what
    /// `halves_took` says.
    proof fn lemma_halves(
        split: Seq<u8>,
        settled: Seq<u8>,
        after: Seq<u8>,
        top: Node,
        whole: Node,
        end: int,
        key: u64,
        value: u64,
    )
        requires
            holds_nodes(split),
            split.len() == end + 2 * NODE_SIZE,
            on_grid(end),
            on_grid(whole.loc as int),
            whole.loc + NODE_SIZE <= end,
            whole.leaf,
            top.loc == end,
            top.len == 1,
            top.children[0] == whole.loc,
            top.children[1] == end + NODE_SIZE,
            node_at(split, whole.loc as int) is Some,
            node_at(split, end + NODE_SIZE) is Some,
            ({
                let lower = node_at(split, whole.loc as int)->0;
                let upper = node_at(split, end + NODE_SIZE)->0;
                &&& lower.leaf
                &&& upper.leaf
                &&& lower.len == crate::node::T - 1
                &&& upper.len == crate::node::T - 1
                &&& lower.loc == whole.loc
                &&& upper.loc == end + NODE_SIZE
                &&& lower.parent == end
                &&& upper.parent == end
                &&& lower.live_keys() == whole.keys@.take(crate::node::T - 1)
                &&& lower.live_values() == whole.values@.take(crate::node::T - 1)
                &&& upper.live_keys() == whole.keys@.subrange(
                    crate::node::T as int,
                    2 * crate::node::T - 1,
                )
                &&& upper.live_values() == whole.values@.subrange(
                    crate::node::T as int,
                    2 * crate::node::T - 1,
                )
            }),
            exists|i: int|
                0 <= i <= top.len && #[trigger] child_took(
                    split,
                    settled,
                    top.children[i] as int,
                    key,
                    value,
                ),
            after.len() == settled.len(),
            forall|other: int|
                in_file(settled, other) && other != top.loc ==> #[trigger] node_at(after, other)
                    == node_at(settled, other),
        ensures
            halves_took(whole, after, end, key, value),
    {
        let i = choose|i: int|
            0 <= i <= top.len && #[trigger] child_took(
                split,
                settled,
                top.children[i] as int,
                key,
                value,
            );
        let left = whole.loc as int;
        let right = end + NODE_SIZE;
        let loc = top.children[i] as int;
        assert(loc == left || loc == right);
        let taken = node_at(settled, loc)->0;
        lemma_node_written(split, loc, taken, left);
        lemma_node_written(split, loc, taken, right);
        assert(in_file(split, left));
        assert(in_file(split, right));
        assert(in_file(settled, left));
        assert(in_file(settled, right));
        assert(node_at(after, left) == node_at(settled, left));
        assert(node_at(after, right) == node_at(settled, right));
    }

    /// Splits the full child at index `child` of `x`: see `split_done`. `Corrupt`
    /// where the child is not full or does not stand where `x` says.
    fn split_child(&mut self, x: &mut Node, child: usize) -> (r: Result<(), Error>)
        requires
            old(self).stores_agree(),
            old(x).valid(),
            old(x).len < NUM_KEYS,
            !old(x).leaf,
            child <= old(x).len,
            in_file(old(self).treefile.bytes(), old(x).loc as int),
            node_at(old(self).treefile.bytes(), old(x).loc as int) == Some(*old(x)),
        ensures
            final(self).keyfile == old(self).keyfile,
            final(self).valfile == old(self).valfile,
            final(self).root_location == old(self).root_location,
            final(self).root == old(self).root,
            final(self).node_cache.limit() == old(self).node_cache.limit(),
            steady_as(&final(self).treefile, &old(self).treefile),
            old(self).treefile.steady() && takes(&old(self).treefile, NODE_SIZE as int)
                ==> match r {
                Ok(_) => true,
                Err(e) => e is Corrupt && !splittable(
                    old(self).treefile.bytes(),
                    *old(x),
                    child as int,
                ),
            },
            r is Ok ==> {
                &&& final(self).stores_agree()
                &&& final(x).valid()
                &&& splittable(old(self).treefile.bytes(), *old(x), child as int)
                &&& all_nodes_ok(old(self).treefile.bytes(), old(self).root_location as int)
                    ==> all_nodes_ok(
                    final(self).treefile.bytes(),
                    final(self).root_location as int,
                )
                &&& split_done(
                    old(self).treefile.bytes(),
                    final(self).treefile.bytes(),
                    *old(x),
                    *final(x),
                    child as int,
                )
                &&& word_at(final(self).treefile.bytes(), 0) == word_at(
                    old(self).treefile.bytes(),
                    0,
                )
                &&& forall|other: int|
                    in_file(old(self).treefile.bytes(), other) ==> #[trigger] in_file(
                        final(self).treefile.bytes(),
                        other,
                    )
            },
    {
        let y_loc = x.children[child];
        let mut y = match self.read_node(y_loc) {
            Ok(n) => n,
            Err(e) => {
                return Err(e);
            },
        };
        if !is_on_grid(y_loc) || y.len != NUM_KEYS as u64 || y_loc == x.loc || y.loc != y_loc {
            return Err(Error::Corrupt);
        }
        let ghost before = self.treefile.bytes();
        let ghost whole = y;
        let parts = y.split_off(x.loc);
        let mut z = parts.0;
        let z_loc = match self.write_node(&mut z) {
            Ok(p) => p,
            Err(e) => {
                return Err(e);
            },
        };
        let ghost grown = self.treefile.bytes();
        x.adopt(child, parts.1, parts.2, z_loc);
        match self.update_node(x) {
            Ok(_) => {},
            Err(e) => {
                return Err(e);
            },
        }
        let ghost with_x = self.treefile.bytes();
        match self.update_node(&y) {
            Ok(_) => {},
            Err(e) => {
                return Err(e);
            },
        }
        proof {
            let after = self.treefile.bytes();
            assert(in_file(before, y_loc as int));
            assert(in_file(grown, z_loc as int));
            assert(node_at(with_x, z_loc as int) == node_at(grown, z_loc as int));
            assert(node_at(after, z_loc as int) == node_at(with_x, z_loc as int));
            assert(node_at(after, x.loc as int) == node_at(with_x, x.loc as int));
            assert forall|other: int|
                in_file(before, other) && other != x.loc && other != y_loc implies #[trigger] node_at(
                after,
                other,
            ) == node_at(before, other) by {
                assert(node_at(grown, other) == node_at(before, other));
                assert(node_at(with_x, other) == node_at(grown, other));
                assert(node_at(after, other) == node_at(with_x, other));
            }
            assert(z.live_keys() == parts.0.live_keys());
            assert(z.live_values() == parts.0.live_values());
            assert(z.live_children() == parts.0.live_children());
            let root = self.root_location as int;
            if all_nodes_ok(before, root) {
                assert(in_file(before, old(x).loc as int));
                assert(shape_ok(before, root, old(x).loc as int, *old(x)));
                assert(shape_ok(before, root, y_loc as int, whole));
                assert forall|loc: int| #[trigger] in_file(after, loc) implies node_at(
                    after,
                    loc,
                ) is Some && shape_ok(after, root, loc, node_at(after, loc)->0) by {
                    if loc == x.loc {
                        assert forall|i: int| 0 <= i <= x.len implies in_file(
                            after,
                            #[trigger] x.children[i] as int,
                        ) by {
                            if i <= child {
                                assert(x.children[i] == old(x).children[i]);
                            } else if i == child + 1 {
                            } else {
                                assert(x.children[i] == old(x).children[i - 1]);
                            }
                        }
                    } else if loc == y_loc {
                        assert forall|i: int| 0 <= i <= y.len && !y.leaf implies in_file(
                            after,
                            #[trigger] y.children[i] as int,
                        ) by {
                            assert(y.children[i] == whole.children[i]);
                        }
                    } else if loc == z_loc {
                        assert forall|i: int| 0 <= i <= z.len && !z.leaf implies in_file(
                            after,
                            #[trigger] z.children[i] as int,
                        ) by {
                            assert(z.live_children()[i] == whole.children@.subrange(
                                crate::node::T as int,
                                2 * crate::node::T,
                            )[i]);
                            assert(in_file(before, whole.children[i + crate::node::T] as int));
                        }
                    } else {
                        assert(in_file(before, loc));
                        assert(node_at(after, loc) == node_at(before, loc));
                        let n = node_at(before, loc)->0;
                        assert(shape_ok(before, root, loc, n));
                        assert forall|i: int| 0 <= i <= n.len && !n.leaf implies in_file(
                            after,
                            #[trigger] n.children[i] as int,
                        ) by {
                            assert(in_file(before, n.children[i] as int));
                        }
                    }
                }
            }
        }
        Ok(())
    }

    /// Inserts `k` with `v` below the node `x`, which is not full and stands in
    /// the tree store, descending through at most `fuel` more levels. A leaf takes
    /// the entry in at `insert_index`; elsewhere the child that the key belongs
    /// to is split first where it is full. `Corrupt` where the way down is longer
    /// or a node on it is not what the tree store promised. No error in a tree
    /// that is ready for the key, nor, whatever the order of the keys, in a leaf
    /// or over leaves that are not full, where the keys read and the stores are
    /// steady and have room.
    fn insert_nonfull(
        &mut self,
        x: &mut Node,
        k: &K,
        v: &V,
        fuel: u64,
        Ghost(h): Ghost<nat>,
        Ghost(lo): Ghost<Option<K>>,
        Ghost(hi): Ghost<Option<K>>,
        Ghost(least): Ghost<int>,
    ) -> (r: Result<(), Error>)
        requires
            old(self).stores_agree(),
            old(x).valid(),
            old(x).len < NUM_KEYS,
            in_file(old(self).treefile.bytes(), old(x).loc as int),
            node_at(old(self).treefile.bytes(), old(x).loc as int) == Some(*old(x)),
        ensures
            final(self).root_location == old(self).root_location,
            final(self).root == old(self).root,
            final(self).node_cache.limit() == old(self).node_cache.limit(),
            r is Ok ==> {
                &&& final(self).stores_agree()
                &&& all_nodes_ok(old(self).treefile.bytes(), old(self).root_location as int)
                    ==> all_nodes_ok(
                    final(self).treefile.bytes(),
                    final(self).root_location as int,
                ) && shape_ok(
                    final(self).treefile.bytes(),
                    final(self).root_location as int,
                    final(x).loc as int,
                    *final(x),
                )
                &&& final(x).valid()
                &&& final(x).loc == old(x).loc
                &&& old(self).valfile.bytes().len() <= u64::MAX
                &&& old(self).keyfile.bytes().len() <= u64::MAX
                &&& final(self).keyfile.bytes() == old(self).keyfile.bytes() + k.encoding()
                &&& final(self).valfile.bytes() == old(self).valfile.bytes() + v.encoding()
                &&& word_at(final(self).treefile.bytes(), 0) == word_at(
                    old(self).treefile.bytes(),
                    0,
                )
                &&& forall|other: int|
                    in_file(old(self).treefile.bytes(), other) ==> #[trigger] in_file(
                        final(self).treefile.bytes(),
                        other,
                    )
            },
            r is Ok && ready::<K>(
                old(self).treefile.bytes(),
                old(self).keyfile.bytes(),
                *old(x),
                *k,
                h,
                lo,
                hi,
                least,
            ) ==> {
                &&& inserted::<K>(
                    old(self).treefile.bytes(),
                    old(self).keyfile.bytes(),
                    final(self).treefile.bytes(),
                    final(self).keyfile.bytes(),
                    old(x).loc as int,
                    h,
                    lo,
                    hi,
                    least,
                    *k,
                    old(self).valfile.bytes().len() as u64,
                )
                &&& node_at(final(self).treefile.bytes(), old(x).loc as int) == Some(*final(x))
                &&& h <= fuel
            },
            final(self).stores_as(old(self)),
            ready::<K>(
                old(self).treefile.bytes(),
                old(self).keyfile.bytes(),
                *old(x),
                *k,
                h,
                lo,
                hi,
                least,
            ) && old(self).steady() && K::reads_from(old(self).keyfile.bytes()) && h <= fuel
                && takes(
                &old(self).keyfile,
                k.encoding().len() as int,
            ) && takes(&old(self).valfile, v.encoding().len() as int) && takes(
                &old(self).treefile,
                h * NODE_SIZE,
            ) ==> r is Ok,
            r is Ok && old(x).leaf ==> {
                &&& final(self).treefile.bytes() == overwritten(
                    old(self).treefile.bytes(),
                    old(x).loc as int,
                    encoding(*final(x)),
                )
                &&& final(x).len == old(x).len + 1
                &&& final(x).leaf
                &&& final(x).loc == old(x).loc
                &&& final(x).parent == old(x).parent
                &&& final(x).children == old(x).children
                &&& node_at(final(self).treefile.bytes(), old(x).loc as int) == Some(*final(x))
                &&& final(self).treefile.bytes().len() == old(self).treefile.bytes().len()
                &&& leaf_took(
                    *old(x),
                    *final(x),
                    old(self).keyfile.bytes().len() as u64,
                    old(self).valfile.bytes().len() as u64,
                )
                &&& is_keyed::<K>() ==> {
                    &&& insert_index(
                        old(self).keyfile.bytes(),
                        *old(x),
                        *k,
                        old(x).len as int,
                    ) matches Some(i)
                    &&& final(x).live_keys() == old(x).live_keys().insert(
                        i,
                        old(self).keyfile.bytes().len() as u64,
                    )
                    &&& final(x).live_values() == old(x).live_values().insert(
                        i,
                        old(self).valfile.bytes().len() as u64,
                    )
                }
            },
            old(self).leaf_takes(*old(x), *k, *v) ==> r is Ok,
            old(self).leaf_below_takes(*old(x), *k, *v) && fuel >= 1 ==> r is Ok,
            !old(x).leaf && has_no_full_child(old(self).treefile.bytes(), *old(x)) ==> *final(x)
                == *old(x),
            r is Ok && !old(x).leaf && has_no_full_child(old(self).treefile.bytes(), *old(x))
                ==> exists|i: int|
                0 <= i <= old(x).len && #[trigger] child_took(
                    old(self).treefile.bytes(),
                    final(self).treefile.bytes(),
                    old(x).children[i] as int,
                    old(self).keyfile.bytes().len() as u64,
                    old(self).valfile.bytes().len() as u64,
                ),
        decreases fuel,
    {
        let ghost keys = self.keyfile.bytes();
        let ghost tree = self.treefile.bytes();
        let ghost start = *x;
        let ghost rdy = ready::<K>(tree, keys, start, *k, h, lo, hi, least);
        let ghost v_off = self.valfile.bytes().len() as u64;
        let ghost sure = rdy && self.steady() && K::reads_from(self.keyfile.bytes()) && h <= fuel
            && takes(
            &self.keyfile,
            k.encoding().len() as int,
        ) && takes(&self.valfile, v.encoding().len() as int) && takes(
            &self.treefile,
            h * NODE_SIZE,
        );
        let ghost plain = self.leaf_takes(start, *k, *v) || self.leaf_below_takes(
            start,
            *k,
            *v,
        );
        proof {
            if rdy {
                assert(reads::<K>(keys, start));
            }
        }
        let mut i: usize = x.len as usize;
        while i > 0
            invariant
                self.stores_agree(),
                self.stores_as(old(self)),
                rdy ==> reads::<K>(keys, start),
                sure ==> rdy && old(self).steady() && K::reads_from(keys),
                plain ==> reads::<K>(keys, start) && old(self).steady() && K::reads_from(keys),
                old(self).leaf_takes(*old(x), *k, *v) || old(self).leaf_below_takes(*old(x), *k, *v)
                    ==> plain,
                ready::<K>(
                    old(self).treefile.bytes(),
                    old(self).keyfile.bytes(),
                    *old(x),
                    *k,
                    h,
                    lo,
                    hi,
                    least,
                ) && old(self).steady() && K::reads_from(old(self).keyfile.bytes()) && h <= fuel
                    && takes(
                    &old(self).keyfile,
                    k.encoding().len() as int,
                ) && takes(&old(self).valfile, v.encoding().len() as int) && takes(
                    &old(self).treefile,
                    h * NODE_SIZE,
                ) ==> sure,
                self.keyfile.bytes() == keys,
                self.treefile.bytes() == tree,
                self.valfile == old(self).valfile,
                self.root_location == old(self).root_location,
                self.root == old(self).root,
                self.node_cache == old(self).node_cache,
                *x == start,
                i <= x.len < NUM_KEYS,
                is_keyed::<K>() ==> insert_index(keys, start, *k, i as int) == insert_index(
                    keys,
                    start,
                    *k,
                    start.len as int,
                ),
            ensures
                i <= x.len,
                is_keyed::<K>() ==> insert_index(keys, start, *k, start.len as int) == Some(
                    i as int,
                ),
            decreases i,
        {
            let held = match self.read_key(x.keys[i - 1]) {
                Ok(h) => h,
                Err(e) => {
                    return Err(e);
                },
            };
            proof {
                if is_keyed::<K>() {
                    lemma_value_at(keys, x.keys[i - 1] as int, held);
                }
            }
            if !(*k < held) {
                break ;
            }
            i -= 1;
        }
        if x.leaf {
            let at = match self.write_entry(k, v) {
                Ok(p) => p,
                Err(e) => {
                    return Err(e);
                },
            };
            x.insert_entry(i, at.0, at.1);
            match self.update_node(x) {
                Ok(_) => {
                    proof {
                        let after = self.treefile.bytes();
                        let root = self.root_location as int;
                        assert(x.live_keys() == start.live_keys().insert(i as int, at.0));
                        assert(holds_with(*x, start.live_keys(), start.live_values(), at.0, at.1));
                        if rdy {
                            lemma_leaf_insert::<K>(
                                tree,
                                keys,
                                after,
                                start,
                                *x,
                                lo,
                                hi,
                                least,
                                *k,
                                at.1,
                            );
                        }
                        if all_nodes_ok(tree, root) {
                            assert(shape_ok(tree, root, start.loc as int, start));
                            assert forall|loc: int| #[trigger] in_file(after, loc) implies node_at(
                                after,
                                loc,
                            ) is Some && shape_ok(after, root, loc, node_at(after, loc)->0) by {
                                assert(in_file(tree, loc));
                                if loc != x.loc {
                                    assert(node_at(after, loc) == node_at(tree, loc));
                                    let n = node_at(tree, loc)->0;
                                    assert(shape_ok(tree, root, loc, n));
                                    assert forall|j: int|
                                        0 <= j <= n.len && !n.leaf implies in_file(
                                        after,
                                        #[trigger] n.children[j] as int,
                                    ) by {
                                        assert(in_file(tree, n.children[j] as int));
                                    }
                                }
                            }
                        }
                    }
                    Ok(())
                },
                Err(e) => Err(e),
            }
        } else {
            proof {
                if rdy {
                    lemma_ready_parent::<K>(tree, keys, start, *k, h, lo, hi, least, i as int);
                    lemma_child_elsewhere::<K>(
                        tree,
                        keys,
                        start,
                        start.loc as int,
                        h,
                        lo,
                        hi,
                        i as int,
                    );
                }
            }
            proof {
                if old(self).leaf_below_takes(start, *k, *v) {
                    assert(leaf_stands::<K>(
                        old(self).tree_bytes(),
                        old(self).key_bytes(),
                        start.children[i as int] as int,
                    ));
                }
            }
            let x_child = match self.node(x.children[i]) {
                Ok(n) => n,
                Err(e) => {
                    return Err(e);
                },
            };
            assert(x_child.is_full() == full_at(tree, start.children[i as int] as int));

            if x_child.len == NUM_KEYS as u64 {
                let ghost at = i as int;
                match self.split_child(x, i) {
                    Ok(_) => {},
                    Err(e) => {
                        return Err(e);
                    },
                }
                proof {
                    if rdy {
                        lemma_after_split::<K>(
                            tree,
                            keys,
                            self.treefile.bytes(),
                            start,
                            *x,
                            *k,
                            h,
                            lo,
                            hi,
                            least,
                            at,
                        );
                    }
                }
                let held = match self.read_key(x.keys[i]) {
                    Ok(h) => h,
                    Err(e) => {
                        return Err(e);
                    },
                };
                proof {
                    if rdy {
                        lemma_value_at(keys, x.keys[at] as int, held);
                        let split = self.treefile.bytes();
                        assert(x.children[at] == x.live_children()[at]);
                        assert(x.children[at + 1] == x.live_children()[at + 1]);
                        assert(start.children[at] == start.live_children()[at]);
                        assert(node_at(split, x.children[at] as int)->0.len == crate::node::T - 1);
                        assert(node_at(split, x.children[at + 1] as int)->0.len == crate::node::T
                            - 1);
                    }
                }
                if *k > held {
                    i += 1;
                }
            }
            proof {
                if rdy {
                    let now = self.treefile.bytes();
                    assert(good_parent::<K>(
                        now,
                        keys,
                        *x,
                        x.loc as int,
                        h,
                        lo,
                        hi,
                        now.len() as int,
                    ));
                    lemma_child_elsewhere::<K>(now, keys, *x, x.loc as int, h, lo, hi, i as int);
                }
            }
            if fuel == 0 {
                return Err(Error::Corrupt);
            }
            let mut c = match self.node(x.children[i]) {
                Ok(n) => n,
                Err(e) => {
                    return Err(e);
                },
            };
            if c.len >= NUM_KEYS as u64 {
                return Err(Error::Corrupt);
            }
            let ghost above = self.treefile.bytes();
            let ghost parent = *x;
            let ghost kp = keys_of::<K>(keys, parent);
            proof {
                let root = self.root_location as int;
                if all_nodes_ok(tree, root) {
                    assert(in_file(above, parent.loc as int));
                    assert(node_at(above, parent.loc as int) == Some(parent));
                    assert(shape_ok(above, root, parent.loc as int, parent));
                }
                if rdy {
                    assert(good_parent::<K>(
                        above,
                        keys,
                        parent,
                        parent.loc as int,
                        h,
                        lo,
                        hi,
                        above.len() as int,
                    ));
                    lemma_child_ready::<K>(above, keys, parent, *k, h, lo, hi, i as int);
                }
            }
            let r = self.insert_nonfull(
                &mut c,
                k,
                v,
                fuel - 1,
                Ghost((h - 1) as nat),
                Ghost(lo_of(kp, lo, i as int)),
                Ghost(hi_of(kp, hi, i as int)),
                Ghost(crate::node::T - 1),
            );
            proof {
                let root = self.root_location as int;
                let after = self.treefile.bytes();
                if r is Ok && has_no_full_child(tree, start) {
                    assert(above == tree);
                    assert(child_took(
                        tree,
                        after,
                        start.children[i as int] as int,
                        keys.len() as u64,
                        v_off,
                    ));
                }
                if r is Ok && all_nodes_ok(tree, root) {
                    assert forall|j: int| 0 <= j <= parent.len implies in_file(
                        after,
                        #[trigger] parent.children[j] as int,
                    ) by {
                        assert(in_file(above, parent.children[j] as int));
                    }
                }
                if r is Ok && rdy {
                    let keys_after = self.keyfile.bytes();
                    assert(keys_after.subrange(0, keys.len() as int) =~= keys);
                    lemma_descent::<K>(
                        above,
                        keys,
                        after,
                        keys_after,
                        parent,
                        parent.loc as int,
                        h,
                        lo,
                        hi,
                        least,
                        i as int,
                        *k,
                        v_off,
                    );
                    lemma_compose::<K>(
                        tree,
                        keys,
                        above,
                        after,
                        keys_after,
                        parent.loc as int,
                        h,
                        lo,
                        hi,
                        least,
                        *k,
                        v_off,
                    );
                }
            }
            r
        }
    }

    /// Inserts `k` with the value `v`: their records are appended to the key
    /// store and the value store, and their offsets go into the leaf that the key
    /// belongs to. A root that is a leaf with room takes them itself. A full root
    /// is split first, under a new root whose record is appended to the tree
    /// store and whose offset goes into the header: the new root holds the median
    /// over the two halves, and where the old root was a leaf, one of the halves
    /// takes the entry. The tree is not asked whether it holds `k` already.
    ///
    /// No error where the stores are steady and have room, the type of the keys
    /// reads its records from the key store, and the tree is ordered, may grow,
    /// and does not hold `k`. Whatever the order of the keys, no error either
    /// where the root is a leaf whose keys read, full or not, and the stores are
    /// steady and have room.
    #[verifier::rlimit(60)]
    pub fn insert(&mut self, k: &K, v: &V) -> (r: Result<(), Error>)
        requires
            old(self).wf(),
        ensures
            final(self).cache_size() == old(self).cache_size(),
            final(self).stores_as(old(self)),
            old(self).steady() && is_ordered_key::<K>() && K::reads_from(old(self).key_bytes())
                && old(self).grows()
                && old(self).finds(*k) is Absent && old(self).has_room(*k, *v) ==> r is Ok,
            r is Ok && is_ordered_key::<K>() && old(self).ordered() && old(self).finds(*k) is Absent
                ==> {
                &&& final(self).ordered()
                &&& old(self).grows() && !old(self).root_node().is_full() ==> final(self).grows()
                &&& final(self).finds(*k) == Lookup::Found(old(self).val_bytes().len() as u64)
                &&& forall|other: K|
                    !same(other, *k) ==> #[trigger] final(self).finds(other) == old(self).finds(
                        other,
                    )
                &&& final(self).holds_value(*k, *v)
                &&& forall|other: K, w: V|
                    !same(other, *k) && old(self).holds_value(other, w)
                        ==> #[trigger] final(self).holds_value(other, w)
            },
            r is Ok ==> {
                &&& final(self).wf()
                &&& old(self).shaped() ==> final(self).shaped()
                &&& final(self).key_bytes() == old(self).key_bytes() + k.encoding()
                &&& final(self).val_bytes() == old(self).val_bytes() + v.encoding()
                &&& final(self).root_offset() == if old(self).root_node().is_full() {
                    old(self).tree_bytes().len() as u64
                } else {
                    old(self).root_offset()
                }
                &&& word_at(final(self).tree_bytes(), 0) == final(self).root_offset()
                &&& node_at(final(self).tree_bytes(), final(self).root_offset() as int) == Some(
                    final(self).root_node(),
                )
                &&& final(self).tree_bytes().len() >= old(self).tree_bytes().len()
            },
            !old(self).root_node().is_full() && old(self).leaf_takes(old(self).root_node(), *k, *v)
                ==> r is Ok,
            old(self).root_node().is_full() && old(self).root_node().leaf && old(self).steady()
                && K::reads_from(old(self).key_bytes()) && reads::<K>(
                old(self).key_bytes(),
                old(self).root_node(),
            ) && old(self).has_room(*k, *v) ==> r is Ok,
            r is Ok && !old(self).root_node().is_full() && old(self).root_node().leaf && reads::<K>(
                old(self).key_bytes(),
                old(self).root_node(),
            ) ==> reads::<K>(final(self).key_bytes(), final(self).root_node()),
            r is Ok && !old(self).root_node().is_full() && old(self).root_node().leaf ==> {
                &&& leaf_took(
                    old(self).root_node(),
                    final(self).root_node(),
                    old(self).key_bytes().len() as u64,
                    old(self).val_bytes().len() as u64,
                )
                &&& final(self).tree_bytes() == overwritten(
                    old(self).tree_bytes(),
                    old(self).root_offset() as int,
                    encoding(final(self).root_node()),
                )
                &&& final(self).tree_bytes().len() == old(self).tree_bytes().len()
                &&& is_keyed::<K>() ==> {
                    &&& insert_index(
                        old(self).key_bytes(),
                        old(self).root_node(),
                        *k,
                        old(self).root_node().len as int,
                    ) matches Some(i)
                    &&& final(self).root_node().live_keys() == old(self).root_node().live_keys().insert(
                        i,
                        old(self).key_bytes().len() as u64,
                    )
                    &&& final(self).root_node().live_values() == old(self)
                        .root_node().live_values().insert(i, old(self).val_bytes().len() as u64)
                }
            },
            r is Ok && old(self).root_node().is_full() ==> {
                &&& !final(self).root_node().leaf
                &&& final(self).root_node().len == 1
                &&& final(self).root_node().loc == old(self).tree_bytes().len()
                &&& final(self).root_node().children[0] == old(self).root_offset()
                &&& final(self).root_node().children[1] == old(self).tree_bytes().len() + NODE_SIZE
                &&& final(self).root_node().keys[0] == old(self).root_node().keys[crate::node::T - 1]
                &&& final(self).root_node().values[0] == old(self).root_node().values[crate::node::T
                    - 1]
                &&& final(self).tree_bytes().len() >= old(self).tree_bytes().len() + 2 * NODE_SIZE
                &&& old(self).root_node().leaf ==> halves_took(
                    old(self).root_node(),
                    final(self).tree_bytes(),
                    old(self).tree_bytes().len() as int,
                    old(self).key_bytes().len() as u64,
                    old(self).val_bytes().len() as u64,
                )
            },
    {
        proof {
            Self::lemma_node_in_file(self.treefile.bytes(), self.root_location as int, self.root);
        }
        let ghost tree0 = self.treefile.bytes();
        let ghost keys0 = self.keyfile.bytes();
        let ghost root0 = self.root_location as int;
        let ghost v_off = self.valfile.bytes().len() as u64;
        let ghost rdy = is_ordered_key::<K>() && self.ordered() && self.finds(*k) is Absent;
        let ghost sure = rdy && self.steady() && K::reads_from(self.keyfile.bytes())
            && self.grows() && self.has_room(
            *k,
            *v,
        );
        let ghost tall: nat = if rdy && self.grows() {
            choose|h: nat|
                h < MAX_HEIGHT && #[trigger] good::<K>(
                    tree0,
                    keys0,
                    root0,
                    h,
                    None,
                    None,
                    0,
                    tree0.len() as int,
                )
        } else if rdy {
            choose|h: nat|
                h <= MAX_HEIGHT && #[trigger] good::<K>(
                    tree0,
                    keys0,
                    root0,
                    h,
                    None,
                    None,
                    0,
                    tree0.len() as int,
                )
        } else {
            0
        };
        proof {
            if rdy {
                lemma_fuel::<K>(
                    tree0,
                    keys0,
                    root0,
                    tall,
                    None,
                    None,
                    0,
                    tree0.len() as int,
                    *k,
                    MAX_HEIGHT as nat,
                );
            }
        }
        if self.root.len == NUM_KEYS as u64 {
            let mut s = Node::new();
            s.leaf = false;
            s.len = 0;
            s.children[0] = self.root_location;
            let s_loc = match self.write_node(&mut s) {
                Ok(p) => p,
                Err(e) => {
                    return Err(e);
                },
            };
            self.root_location = s_loc;
            let header = u64_to_le_bytes(s_loc);
            let ghost b = self.treefile.bytes();
            match self.treefile.write_at(0, header.as_slice()) {
                Ok(_) => {},
                Err(e) => {
                    return Err(e);
                },
            }
            proof {
                lemma_header_written(b, s_loc, 0);
                assert forall|loc: u64| #[trigger]
                    self.node_cache.entries().contains_key(loc) implies in_file(
                    self.treefile.bytes(),
                    loc as int,
                ) && node_at(self.treefile.bytes(), loc as int) == Some(
                    self.node_cache.entries()[loc],
                ) by {
                    lemma_header_written(b, s_loc, loc as int);
                }
                lemma_header_written(b, s_loc, s_loc as int);
                let grown = self.treefile.bytes();
                let before = old(self).treefile.bytes();
                let was = old(self).root_location as int;
                if old(self).shaped() {
                    assert(in_file(before, was));
                    assert(shape_ok(before, was, was, old(self).root));
                    assert forall|loc: int| #[trigger] in_file(grown, loc) implies node_at(
                        grown,
                        loc,
                    ) is Some && shape_ok(grown, s_loc as int, loc, node_at(grown, loc)->0) by {
                        lemma_header_written(b, s_loc, loc);
                        if loc != s_loc {
                            assert(in_file(before, loc));
                            assert(node_at(b, loc) == node_at(before, loc));
                            let n = node_at(before, loc)->0;
                            assert(shape_ok(before, was, loc, n));
                            assert forall|j: int| 0 <= j <= n.len && !n.leaf implies in_file(
                                grown,
                                #[trigger] n.children[j] as int,
                            ) by {
                                assert(in_file(before, n.children[j] as int));
                            }
                        } else {
                            assert(in_file(grown, was));
                        }
                    }
                }
            }
            let ghost tree1 = self.treefile.bytes();
            let ghost empty = s;
            let ghost whole = old(self).root;
            proof {
                lemma_header_written(b, s_loc, root0);
                assert(node_at(tree1, root0) == Some(whole));
                assert(tree1.len() == tree0.len() + NODE_SIZE);
                assert(empty.live_children() =~= seq![old(self).root_location]);
                assert(empty.live_keys() =~= Seq::<u64>::empty());
                assert(empty.live_values() =~= Seq::<u64>::empty());
            }
            proof {
                if rdy {
                    assert forall|l: int| in_file(tree0, l) implies #[trigger] node_at(tree1, l)
                        == node_at(tree0, l) by {
                        lemma_header_written(b, s_loc, l);
                    }
                    lemma_new_root::<K>(tree0, keys0, tree1, s, root0, tall);
                }
            }
            match self.split_child(&mut s, 0) {
                Ok(_) => {},
                Err(e) => {
                    return Err(e);
                },
            }
            let ghost tree2 = self.treefile.bytes();
            let ghost top = s;
            proof {
                assert(split_done(tree1, tree2, empty, top, 0));
                Self::lemma_top(tree1, tree2, keys0, empty, top, whole);
            }
            proof {
                if rdy {
                    lemma_split::<K>(
                        tree1,
                        keys0,
                        tree2,
                        empty,
                        s,
                        s_loc as int,
                        tall + 1,
                        None,
                        None,
                        tree0.len() as int,
                        0,
                    );
                    assert(lookup(tree2, keys0, s, *k, tall + 1) == crate::order::lookup_before_split(
                        tree1,
                        keys0,
                        empty,
                        *k,
                        tall + 1,
                    ));
                    assert(good::<K>(
                        tree2,
                        keys0,
                        s_loc as int,
                        tall + 1,
                        None,
                        None,
                        0,
                        tree2.len() as int,
                    ));
                    assert(ready::<K>(tree2, keys0, s, *k, tall + 1, None, None, 0));
                }
            }
            match self.insert_nonfull(
                &mut s,
                k,
                v,
                MAX_HEIGHT,
                Ghost(tall + 1),
                Ghost(None),
                Ghost(None),
                Ghost(0),
            ) {
                Ok(_) => {},
                Err(e) => {
                    return Err(e);
                },
            }
            self.root = s;
            let ghost settled = self.treefile.bytes();
            match self.update_node(&s) {
                Ok(_) => {
                    proof {
                        let after = self.treefile.bytes();
                        let root = self.root_location as int;
                        assert(s == top);
                        assert(in_file(tree2, tree1.len() as int));
                        assert(in_file(settled, tree1.len() as int));
                        if whole.leaf {
                            Self::lemma_halves(
                                tree2,
                                settled,
                                after,
                                top,
                                whole,
                                tree0.len() as int,
                                keys0.len() as u64,
                                v_off,
                            );
                        }
                        if rdy {
                            let keys2 = self.keyfile.bytes();
                            Self::lemma_same_record(settled, s.loc as int, s);
                            assert(after == settled);
                            assert(inserted::<K>(
                                tree2,
                                keys0,
                                after,
                                keys2,
                                root,
                                tall + 1,
                                None,
                                None,
                                0,
                                *k,
                                v_off,
                            ));
                            assert(self.root == node_at(after, root)->0);
                            assert(good::<K>(
                                self.tree_bytes(),
                                self.key_bytes(),
                                self.root_offset() as int,
                                tall + 1,
                                None,
                                None,
                                0,
                                self.tree_bytes().len() as int,
                            ));
                            assert(self.ordered());
                            lemma_fuel::<K>(
                                after,
                                keys2,
                                root,
                                tall + 1,
                                None,
                                None,
                                0,
                                after.len() as int,
                                *k,
                                MAX_HEIGHT as nat,
                            );
                            assert forall|other: K| !same(other, *k) implies #[trigger] self.finds(
                                other,
                            ) == old(self).finds(other) by {
                                lemma_fuel::<K>(
                                    after,
                                    keys2,
                                    root,
                                    tall + 1,
                                    None,
                                    None,
                                    0,
                                    after.len() as int,
                                    other,
                                    MAX_HEIGHT as nat,
                                );
                                lemma_fuel::<K>(
                                    tree0,
                                    keys0,
                                    root0,
                                    tall,
                                    None,
                                    None,
                                    0,
                                    tree0.len() as int,
                                    other,
                                    MAX_HEIGHT as nat,
                                );
                                assert(lookup(tree2, keys0, node_at(tree2, s_loc as int)->0, other, tall + 1)
                                    == crate::order::lookup_before_split(
                                    tree1,
                                    keys0,
                                    empty,
                                    other,
                                    tall + 1,
                                ));
                            }
                            Self::lemma_values_stay(old(self).valfile.bytes(), *v);
                            assert(self.finds(*k) == Lookup::Found(v_off));
                            assert(self.holds_value(*k, *v));
                            assert forall|other: K, w: V|
                                !same(other, *k) && old(self).holds_value(
                                    other,
                                    w,
                                ) implies #[trigger] self.holds_value(other, w) by {
                                assert(self.finds(other) == old(self).finds(other));
                            }
                        }
                        if old(self).shaped() {
                            assert(all_nodes_ok(settled, root));
                            assert forall|loc: int| #[trigger] in_file(after, loc) implies node_at(
                                after,
                                loc,
                            ) is Some && shape_ok(after, root, loc, node_at(after, loc)->0) by {
                                assert(in_file(settled, loc));
                                if loc != s.loc {
                                    assert(node_at(after, loc) == node_at(settled, loc));
                                    let n = node_at(settled, loc)->0;
                                    assert(shape_ok(settled, root, loc, n));
                                    assert forall|j: int|
                                        0 <= j <= n.len && !n.leaf implies in_file(
                                        after,
                                        #[trigger] n.children[j] as int,
                                    ) by {
                                        assert(in_file(settled, n.children[j] as int));
                                    }
                                } else {
                                    assert forall|j: int|
                                        0 <= j <= s.len && !s.leaf implies in_file(
                                        after,
                                        #[trigger] s.children[j] as int,
                                    ) by {
                                        assert(in_file(settled, s.children[j] as int));
                                    }
                                }
                            }
                        }
                    }
                    Ok(())
                },
                Err(e) => Err(e),
            }
        } else {
            let mut root = self.root;
            match self.insert_nonfull(
                &mut root,
                k,
                v,
                MAX_HEIGHT,
                Ghost(tall),
                Ghost(None),
                Ghost(None),
                Ghost(0),
            ) {
                Ok(_) => {},
                Err(e) => {
                    return Err(e);
                },
            }
            let at = self.root_location;
            match self.node(at) {
                Ok(n) => {
                    self.root = n;
                    proof {
                        assert(in_file(tree0, tree0.len() - NODE_SIZE));
                        assert(in_file(self.treefile.bytes(), tree0.len() - NODE_SIZE));
                        if old(self).root.leaf {
                            assert(n == root);
                            if reads::<K>(keys0, old(self).root) {
                                Self::lemma_leaf_reads(keys0, old(self).root, n, *k, v_off);
                            }
                        }
                        if rdy {
                            let after = self.treefile.bytes();
                            let keys2 = self.keyfile.bytes();
                            assert(inserted::<K>(
                                tree0,
                                keys0,
                                after,
                                keys2,
                                root0,
                                tall,
                                None,
                                None,
                                0,
                                *k,
                                v_off,
                            ));
                            assert(self.root == node_at(after, root0)->0);
                            assert(good::<K>(
                                self.tree_bytes(),
                                self.key_bytes(),
                                self.root_offset() as int,
                                tall,
                                None,
                                None,
                                0,
                                self.tree_bytes().len() as int,
                            ));
                            assert(self.ordered());
                            lemma_fuel::<K>(
                                after,
                                keys2,
                                root0,
                                tall,
                                None,
                                None,
                                0,
                                after.len() as int,
                                *k,
                                MAX_HEIGHT as nat,
                            );
                            assert forall|other: K| !same(other, *k) implies #[trigger] self.finds(
                                other,
                            ) == old(self).finds(other) by {
                                lemma_fuel::<K>(
                                    after,
                                    keys2,
                                    root0,
                                    tall,
                                    None,
                                    None,
                                    0,
                                    after.len() as int,
                                    other,
                                    MAX_HEIGHT as nat,
                                );
                                lemma_fuel::<K>(
                                    tree0,
                                    keys0,
                                    root0,
                                    tall,
                                    None,
                                    None,
                                    0,
                                    tree0.len() as int,
                                    other,
                                    MAX_HEIGHT as nat,
                                );
                            }
                            assert(self.finds(*k) == Lookup::Found(v_off));
                            Self::lemma_values_stay(old(self).valfile.bytes(), *v);
                            assert(self.holds_value(*k, *v));
                            assert forall|other: K, w: V|
                                !same(other, *k) && old(self).holds_value(
                                    other,
                                    w,
                                ) implies #[trigger] self.holds_value(other, w) by {
                                assert(self.finds(other) == old(self).finds(other));
                            }
                        }
                    }
                    Ok(())
                },
                Err(e) => Err(e),
            }
        }
    }

    /// Sets the number of nodes that the cache takes in from now on.
    pub fn set_cache_size(&mut self, size: usize)
        requires
            old(self).wf(),
        ensures
            final(self).wf(),
            final(self).stores_as(old(self)),
            final(self).cache_size() == size,
            final(self).tree_bytes() == old(self).tree_bytes(),
            final(self).key_bytes() == old(self).key_bytes(),
            final(self).val_bytes() == old(self).val_bytes(),
            final(self).root_node() == old(self).root_node(),
            final(self).cached() == old(self).cached(),
    {
        self.node_cache.set_size(size);
    }

    /// Hands what was written on to where the three stores are kept. Steady
    /// stores do not fail.
    pub fn flush(&mut self) -> (r: Result<(), Error>)
        requires
            old(self).wf(),
        ensures
            final(self).wf(),
            final(self).stores_as(old(self)),
            old(self).steady() ==> r is Ok,
            final(self).tree_bytes() == old(self).tree_bytes(),
            final(self).key_bytes() == old(self).key_bytes(),
            final(self).val_bytes() == old(self).val_bytes(),
            final(self).root_node() == old(self).root_node(),
            final(self).cached() == old(self).cached(),
    {
        match self.keyfile.flush() {
            Ok(_) => {},
            Err(e) => {
                return Err(e);
            },
        }
        match self.valfile.flush() {
            Ok(_) => {},
            Err(e) => {
                return Err(e);
            },
        }
        match self.treefile.flush() {
            Ok(_) => {},
            Err(e) => {
                return Err(e);
            },
        }
        Ok(())
    }
}

} // verus!
