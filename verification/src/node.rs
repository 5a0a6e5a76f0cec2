//! The node of the tree and its fixed record in the tree file.
//!
//! A record holds the 64-bit fields of the node, least significant byte first, in
//! the order parent, loc, len, keys, values, children, and then one byte for the
//! leaf flag: `NODE_SIZE` bytes in all.

use vstd::bytes::lemma_auto_spec_u64_to_from_le_bytes;
use vstd::bytes::spec_u64_from_le_bytes;
use vstd::bytes::spec_u64_to_le_bytes;
use vstd::bytes::u64_from_le_bytes;
use vstd::bytes::u64_to_le_bytes;
use std::cmp::Ordering;
use std::collections::HashMap;
use vstd::multiset::Multiset;
use vstd::prelude::*;
use vstd::slice::slice_subrange;
use vstd::std_specs::cmp::PartialEqSpecImpl;
use vstd::std_specs::cmp::PartialOrdSpecImpl;
use vstd::std_specs::hash::*;
use crate::error::Error;
use crate::priority_queue::has_eq;
use crate::priority_queue::has_match;
use crate::priority_queue::is_first_match;
use crate::priority_queue::is_heap;
use crate::priority_queue::is_total_order;
use crate::priority_queue::polled;
use crate::priority_queue::pushed;
use crate::priority_queue::sifted_down;
use crate::priority_queue::lemma_root_is_least;
use crate::priority_queue::precedes;
use crate::priority_queue::same;
use crate::priority_queue::PriorityQueue;
use crate::storage::window;
use crate::storage::Storage;

verus! {

/// The order of the tree: a node holds up to `2 * T - 1` keys, and every node but
/// the root at least `T - 1`.
pub const T: u64 = 16;

/// `T` as an index.
pub const T_USIZE: usize = 16;

/// The most children that a node has.
pub const NUM_CHILDREN: usize = 32;

/// The most keys that a node holds.
pub const NUM_KEYS: usize = 31;

/// Marks a slot that holds no offset.
pub const NONE: u64 = 0xFFFF_FFFF_FFFF_FFFF;

/// Number of 64-bit fields in a record.
pub const NODE_WORDS: usize = 97;

/// Number of bytes in a record.
pub const NODE_SIZE: usize = 777;

/// A node: the offsets of its keys and values in their files, of its children in
/// the tree file, and where it stands itself.
#[derive(Clone, Copy, Debug)]
pub struct Node {
    /// Offset of the parent, as it was when the node was last split off or split.
    pub parent: u64,
    /// Offset of the node's own record.
    pub loc: u64,
    /// Number of keys held.
    pub len: u64,
    /// Offsets of the keys in the key file; the first `len` are in use.
    pub keys: [u64; NUM_KEYS],
    /// Offsets of the values in the value file; the first `len` are in use.
    pub values: [u64; NUM_KEYS],
    /// Offsets of the children in the tree file; in a node that is no leaf the
    /// first `len + 1` are in use.
    pub children: [u64; NUM_CHILDREN],
    /// Whether the node has no children.
    pub leaf: bool,
}

/// The 64-bit fields of `n` in the order in which they are stored.
pub open spec fn words(n: Node) -> Seq<u64> {
    seq![n.parent, n.loc, n.len] + n.keys@ + n.values@ + n.children@
}

/// The bytes of `ws`, each word least significant byte first.
pub open spec fn word_bytes(ws: Seq<u64>) -> Seq<u8> {
    Seq::new(8 * ws.len(), |i: int| spec_u64_to_le_bytes(ws[i / 8])[i % 8])
}

/// The byte that stands for the leaf flag.
pub open spec fn flag_byte(leaf: bool) -> u8 {
    if leaf {
        1u8
    } else {
        0u8
    }
}

/// The record of `n`.
pub open spec fn encoding(n: Node) -> Seq<u8> {
    word_bytes(words(n)).push(flag_byte(n.leaf))
}

/// The word that `b` holds at index `j`, counted in words.
pub open spec fn word_at(b: Seq<u8>, j: int) -> u64 {
    spec_u64_from_le_bytes(b.subrange(8 * j, 8 * j + 8))
}

/// The node whose record `b` is, if it is the record of a node that holds no more
/// keys than a node can.
pub open spec fn decoding(b: Seq<u8>) -> Option<Node> {
    if exists|n: Node| n.valid() && encoding(n) == b {
        Some(choose|n: Node| n.valid() && encoding(n) == b)
    } else {
        None
    }
}

/// The words of a node are what its record holds, and the flag its last byte.
pub proof fn lemma_encoding_words(n: Node, j: int)
    requires
        0 <= j < NODE_WORDS,
    ensures
        encoding(n).len() == NODE_SIZE,
        words(n).len() == NODE_WORDS,
        word_at(encoding(n), j) == words(n)[j],
        encoding(n)[NODE_SIZE - 1] == flag_byte(n.leaf),
{
    lemma_auto_spec_u64_to_from_le_bytes();
    let e = encoding(n);
    let w = words(n)[j];
    assert(e.subrange(8 * j, 8 * j + 8) =~= spec_u64_to_le_bytes(w)) by {
        assert forall|k: int| 0 <= k < 8 implies e.subrange(8 * j, 8 * j + 8)[k]
            == spec_u64_to_le_bytes(w)[k] by {
            assert((8 * j + k) / 8 == j);
            assert((8 * j + k) % 8 == k);
        }
    }
}

/// Two nodes with one record are one node.
pub proof fn lemma_encoding_is_injective(a: Node, b: Node)
    requires
        encoding(a) == encoding(b),
    ensures
        a == b,
{
    assert forall|j: int| 0 <= j < NODE_WORDS implies words(a)[j] == words(b)[j] by {
        lemma_encoding_words(a, j);
        lemma_encoding_words(b, j);
    }
    lemma_encoding_words(a, 0);
    lemma_encoding_words(b, 0);
    assert(words(a)[0] == a.parent && words(a)[1] == a.loc && words(a)[2] == a.len);
    assert(words(b)[0] == b.parent && words(b)[1] == b.loc && words(b)[2] == b.len);
    assert forall|i: int| 0 <= i < NUM_KEYS implies a.keys[i] == b.keys[i] by {
        assert(words(a)[3 + i] == a.keys@[i]);
        assert(words(b)[3 + i] == b.keys@[i]);
    }
    assert forall|i: int| 0 <= i < NUM_KEYS implies a.values[i] == b.values[i] by {
        assert(words(a)[34 + i] == a.values@[i]);
        assert(words(b)[34 + i] == b.values@[i]);
    }
    assert forall|i: int| 0 <= i < NUM_CHILDREN implies a.children[i] == b.children[i] by {
        assert(words(a)[65 + i] == a.children@[i]);
        assert(words(b)[65 + i] == b.children@[i]);
    }
    assert(a.keys =~= b.keys);
    assert(a.values =~= b.values);
    assert(a.children =~= b.children);
}

/// A record decodes to the node that it was made from.
pub proof fn lemma_decoding_of_encoding(n: Node)
    requires
        n.valid(),
    ensures
        decoding(encoding(n)) == Some(n),
{
    let m = choose|m: Node| m.valid() && encoding(m) == encoding(n);
    lemma_encoding_is_injective(m, n);
}

/// Appends the bytes of `x`, least significant first.
fn push_word(out: &mut Vec<u8>, x: u64)
    ensures
        final(out)@ == old(out)@ + spec_u64_to_le_bytes(x),
        final(out)@.len() == old(out)@.len() + 8,
{
    let mut b = u64_to_le_bytes(x);
    out.append(&mut b);
}

/// The word of `bytes` at index `j`, counted in words.
fn read_word(bytes: &[u8], j: usize) -> (r: u64)
    requires
        j < NODE_WORDS,
        8 * j + 8 <= bytes@.len(),
    ensures
        r == word_at(bytes@, j as int),
{
    u64_from_le_bytes(slice_subrange(bytes, 8 * j, 8 * j + 8))
}

/// `a` with `x` put in at index `i` before the first `used` of its elements; what
/// follows them stays where it is, and the element at index `used` is lost.
pub open spec fn shifted_in(a: Seq<u64>, used: int, i: int, x: u64) -> Seq<u64> {
    a.take(used).insert(i, x) + a.skip(used + 1)
}

/// `a` with every element from index `from` on replaced by `NONE`.
pub open spec fn cleared_from(a: Seq<u64>, from: int) -> Seq<u64> {
    Seq::new(
        a.len(),
        |i: int|
            if i < from {
                a[i]
            } else {
                NONE
            },
    )
}

/// Moves the elements of `a` from index `i` to `used - 1` up by one and puts `x`
/// at index `i`.
fn shift_in<const N: usize>(a: &mut [u64; N], used: usize, i: usize, x: u64)
    requires
        i <= used < N,
    ensures
        final(a)@ == shifted_in(old(a)@, used as int, i as int, x),
{
    let mut j = used;
    while j > i
        invariant
            i <= j <= used < N,
            forall|k: int| 0 <= k <= j ==> a[k] == old(a)[k],
            forall|k: int| j < k <= used ==> a[k] == old(a)[k - 1],
            forall|k: int| used < k < N ==> a[k] == old(a)[k],
        decreases j,
    {
        a[j] = a[j - 1];
        j -= 1;
    }
    a[i] = x;
    assert(a@ =~= shifted_in(old(a)@, used as int, i as int, x));
}

/// Replaces every element of `a` from index `from` on by `NONE`.
fn clear_from<const N: usize>(a: &mut [u64; N], from: usize)
    requires
        from <= N,
    ensures
        final(a)@ == cleared_from(old(a)@, from as int),
{
    let mut j = from;
    while j < N
        invariant
            from <= j <= N,
            forall|k: int| 0 <= k < from ==> a[k] == old(a)[k],
            forall|k: int| from <= k < j ==> a[k] == NONE,
            forall|k: int| j <= k < N ==> a[k] == old(a)[k],
        decreases N - j,
    {
        a[j] = NONE;
        j += 1;
    }
    assert(a@ =~= cleared_from(old(a)@, from as int));
}

impl Node {
    /// The node holds no more keys than a node can.
    pub open spec fn valid(&self) -> bool {
        self.len <= NUM_KEYS
    }

    /// The node holds as many keys as a node can.
    pub open spec fn is_full(&self) -> bool {
        self.len == NUM_KEYS
    }

    /// The offsets of the keys held.
    pub open spec fn live_keys(&self) -> Seq<u64> {
        self.keys@.take(self.len as int)
    }

    /// The offsets of the values held.
    pub open spec fn live_values(&self) -> Seq<u64> {
        self.values@.take(self.len as int)
    }

    /// The offsets of the children: none in a leaf, one more than keys elsewhere.
    pub open spec fn live_children(&self) -> Seq<u64> {
        if self.leaf {
            Seq::empty()
        } else {
            self.children@.take(self.len + 1)
        }
    }

    /// Every slot that is not in use holds `NONE`.
    pub open spec fn is_tidy(&self) -> bool {
        &&& self.valid()
        &&& forall|i: int| self.len <= i < NUM_KEYS ==> self.keys[i] == NONE && self.values[i] == NONE
        &&& forall|i: int|
            0 <= i < NUM_CHILDREN && (self.leaf || i > self.len) ==> self.children[i] == NONE
    }

    /// Puts the offsets of a key and its value at index `i`, moving what stands
    /// there and after it up by one.
    pub fn insert_entry(&mut self, i: usize, k_loc: u64, v_loc: u64)
        requires
            i <= old(self).len < NUM_KEYS,
        ensures
            final(self).len == old(self).len + 1,
            final(self).keys@ == shifted_in(old(self).keys@, old(self).len as int, i as int, k_loc),
            final(self).values@ == shifted_in(
                old(self).values@,
                old(self).len as int,
                i as int,
                v_loc,
            ),
            final(self).live_keys() == old(self).live_keys().insert(i as int, k_loc),
            final(self).live_values() == old(self).live_values().insert(i as int, v_loc),
            final(self).children == old(self).children,
            final(self).parent == old(self).parent,
            final(self).loc == old(self).loc,
            final(self).leaf == old(self).leaf,
            old(self).is_tidy() ==> final(self).is_tidy(),
    {
        let used = self.len as usize;
        shift_in(&mut self.keys, used, i, k_loc);
        shift_in(&mut self.values, used, i, v_loc);
        self.len += 1;
        assert(self.live_keys() =~= old(self).live_keys().insert(i as int, k_loc));
        assert(self.live_values() =~= old(self).live_values().insert(i as int, v_loc));
    }

    /// Takes in a child that was split off the child at index `i`: the median key
    /// and its value go to index `i`, the offset `child` to index `i + 1`, and
    /// what stands there and after moves up by one.
    pub fn adopt(&mut self, i: usize, k_loc: u64, v_loc: u64, child: u64)
        requires
            i <= old(self).len < NUM_KEYS,
            !old(self).leaf,
        ensures
            final(self).len == old(self).len + 1,
            final(self).keys@ == shifted_in(old(self).keys@, old(self).len as int, i as int, k_loc),
            final(self).values@ == shifted_in(
                old(self).values@,
                old(self).len as int,
                i as int,
                v_loc,
            ),
            final(self).children@ == shifted_in(
                old(self).children@,
                old(self).len + 1,
                i + 1,
                child,
            ),
            final(self).live_keys() == old(self).live_keys().insert(i as int, k_loc),
            final(self).live_values() == old(self).live_values().insert(i as int, v_loc),
            final(self).live_children() == old(self).live_children().insert(i + 1, child),
            final(self).parent == old(self).parent,
            final(self).loc == old(self).loc,
            !final(self).leaf,
            old(self).is_tidy() ==> final(self).is_tidy(),
    {
        let used = self.len as usize;
        shift_in(&mut self.children, used + 1, i + 1, child);
        shift_in(&mut self.keys, used, i, k_loc);
        shift_in(&mut self.values, used, i, v_loc);
        self.len += 1;
        assert(self.live_keys() =~= old(self).live_keys().insert(i as int, k_loc));
        assert(self.live_values() =~= old(self).live_values().insert(i as int, v_loc));
        assert(self.live_children() =~= old(self).live_children().insert(i + 1, child));
    }

    /// Splits a full node in two. The node keeps its lower `T - 1` keys; the
    /// node returned, a child of `parent` like this one, gets the upper `T - 1`
    /// and, unless they are leaves, the upper `T` children. With it come the
    /// offsets of the median key and its value, which neither node holds any
    /// more. The slots that the node gave up hold `NONE`.
    pub fn split_off(&mut self, parent: u64) -> (r: (Node, u64, u64))
        requires
            old(self).is_full(),
        ensures
            r.1 == old(self).keys[T - 1],
            r.2 == old(self).values[T - 1],
            final(self).len == T - 1,
            final(self).parent == parent,
            final(self).loc == old(self).loc,
            final(self).leaf == old(self).leaf,
            final(self).keys@ == cleared_from(old(self).keys@, T - 1),
            final(self).values@ == cleared_from(old(self).values@, T - 1),
            final(self).children@ == if old(self).leaf {
                old(self).children@
            } else {
                cleared_from(old(self).children@, T as int)
            },
            final(self).live_keys() == old(self).keys@.take(T - 1),
            final(self).live_values() == old(self).values@.take(T - 1),
            !old(self).leaf ==> final(self).live_children() == old(self).children@.take(T as int),
            r.0.len == T - 1,
            r.0.parent == parent,
            r.0.loc == 0,
            r.0.leaf == old(self).leaf,
            r.0.live_keys() == old(self).keys@.subrange(T as int, 2 * T - 1),
            r.0.live_values() == old(self).values@.subrange(T as int, 2 * T - 1),
            !old(self).leaf ==> r.0.live_children() == old(self).children@.subrange(
                T as int,
                2 * T,
            ),
            r.0.is_tidy(),
            old(self).is_tidy() ==> final(self).is_tidy(),
    {
        let mut z = Node::new();
        z.leaf = self.leaf;
        z.len = T - 1;
        z.parent = parent;
        let mut j: usize = 0;
        while j < T_USIZE - 1
            invariant
                j <= T_USIZE - 1,
                z.len == T - 1,
                z.parent == parent,
                z.loc == 0,
                z.leaf == self.leaf,
                forall|k: int| 0 <= k < j ==> z.keys[k] == self.keys[k + T] && z.values[k]
                    == self.values[k + T],
                forall|k: int| j <= k < NUM_KEYS ==> z.keys[k] == NONE && z.values[k] == NONE,
                forall|k: int| 0 <= k < NUM_CHILDREN ==> z.children[k] == NONE,
            decreases T_USIZE - 1 - j,
        {
            z.keys[j] = self.keys[j + T_USIZE];
            z.values[j] = self.values[j + T_USIZE];
            j += 1;
        }
        if !self.leaf {
            let mut j: usize = 0;
            while j < T_USIZE
                invariant
                    j <= T_USIZE,
                    z.len == T - 1,
                    z.parent == parent,
                    z.loc == 0,
                    z.leaf == self.leaf,
                    forall|k: int|
                        0 <= k < T - 1 ==> z.keys[k] == self.keys[k + T] && z.values[k]
                            == self.values[k + T],
                    forall|k: int|
                        T - 1 <= k < NUM_KEYS ==> z.keys[k] == NONE && z.values[k] == NONE,
                    forall|k: int| 0 <= k < j ==> z.children[k] == self.children[k + T],
                    forall|k: int| j <= k < NUM_CHILDREN ==> z.children[k] == NONE,
                decreases T_USIZE - j,
            {
                z.children[j] = self.children[j + T_USIZE];
                j += 1;
            }
        }
        let k_loc = self.keys[T_USIZE - 1];
        let v_loc = self.values[T_USIZE - 1];
        self.len = T - 1;
        self.parent = parent;
        clear_from(&mut self.keys, T_USIZE - 1);
        clear_from(&mut self.values, T_USIZE - 1);
        if !self.leaf {
            clear_from(&mut self.children, T_USIZE);
        }
        assert(self.live_keys() =~= old(self).keys@.take(T - 1));
        assert(self.live_values() =~= old(self).values@.take(T - 1));
        assert(!old(self).leaf ==> self.live_children() =~= old(self).children@.take(T as int));
        assert(z.live_keys() =~= old(self).keys@.subrange(T as int, 2 * T - 1));
        assert(z.live_values() =~= old(self).values@.subrange(T as int, 2 * T - 1));
        assert(!old(self).leaf ==> z.live_children() =~= old(self).children@.subrange(
            T as int,
            2 * T,
        ));
        (z, k_loc, v_loc)
    }

    /// A leaf without keys or parent, at offset 0, every slot unused.
    pub fn new() -> (r: Node)
        ensures
            r.parent == NONE,
            r.loc == 0,
            r.len == 0,
            r.leaf,
            r.valid(),
            forall|i: int| 0 <= i < NUM_KEYS ==> r.keys[i] == NONE && r.values[i] == NONE,
            forall|i: int| 0 <= i < NUM_CHILDREN ==> r.children[i] == NONE,
    {
        broadcast use vstd::array::axiom_spec_array_fill_for_copy_type;

        Node {
            parent: NONE,
            len: 0,
            loc: 0,
            keys: [NONE;NUM_KEYS],
            values: [NONE;NUM_KEYS],
            children: [NONE;NUM_CHILDREN],
            leaf: true,
        }
    }

    /// The record of the node.
    pub fn encode(&self) -> (r: Vec<u8>)
        ensures
            r@ == encoding(*self),
            r@.len() == NODE_SIZE,
    {
        let ghost ws = words(*self);
        let mut out: Vec<u8> = Vec::new();
        push_word(&mut out, self.parent);
        push_word(&mut out, self.loc);
        push_word(&mut out, self.len);
        assert(out@ =~= word_bytes(ws.take(3)));
        let mut i: usize = 0;
        while i < NUM_KEYS
            invariant
                i <= NUM_KEYS,
                ws == words(*self),
                out@ == word_bytes(ws.take(3 + i)),
            decreases NUM_KEYS - i,
        {
            push_word(&mut out, self.keys[i]);
            assert(out@ =~= word_bytes(ws.take(3 + i + 1)));
            i += 1;
        }
        let mut i: usize = 0;
        while i < NUM_KEYS
            invariant
                i <= NUM_KEYS,
                ws == words(*self),
                out@ == word_bytes(ws.take(34 + i)),
            decreases NUM_KEYS - i,
        {
            push_word(&mut out, self.values[i]);
            assert(out@ =~= word_bytes(ws.take(34 + i + 1)));
            i += 1;
        }
        let mut i: usize = 0;
        while i < NUM_CHILDREN
            invariant
                i <= NUM_CHILDREN,
                ws == words(*self),
                out@ == word_bytes(ws.take(65 + i)),
            decreases NUM_CHILDREN - i,
        {
            push_word(&mut out, self.children[i]);
            assert(out@ =~= word_bytes(ws.take(65 + i + 1)));
            i += 1;
        }
        assert(ws.take(97) =~= ws);
        out.push(if self.leaf {
            1u8
        } else {
            0u8
        });
        out
    }

    /// The node whose record `bytes` is, if it is one.
    pub fn decode(bytes: &[u8]) -> (r: Option<Node>)
        ensures
            r == decoding(bytes@),
    {
        if bytes.len() != NODE_SIZE {
            proof {
                assert forall|n: Node| encoding(n) != bytes@ by {
                    lemma_encoding_words(n, 0);
                }
            }
            return None;
        }
        let mut node = Node::new();
        node.parent = read_word(bytes, 0);
        node.loc = read_word(bytes, 1);
        node.len = read_word(bytes, 2);
        let flag = bytes[NODE_SIZE - 1];
        let mut i: usize = 0;
        while i < NUM_KEYS
            invariant
                i <= NUM_KEYS,
                bytes@.len() == NODE_SIZE,
                forall|k: int| 0 <= k < i ==> node.keys[k] == word_at(bytes@, 3 + k),
                forall|k: int| 0 <= k < i ==> node.values[k] == word_at(bytes@, 34 + k),
                node.parent == word_at(bytes@, 0),
                node.loc == word_at(bytes@, 1),
                node.len == word_at(bytes@, 2),
            decreases NUM_KEYS - i,
        {
            node.keys[i] = read_word(bytes, 3 + i);
            node.values[i] = read_word(bytes, 34 + i);
            i += 1;
        }
        let mut i: usize = 0;
        while i < NUM_CHILDREN
            invariant
                i <= NUM_CHILDREN,
                bytes@.len() == NODE_SIZE,
                forall|k: int| 0 <= k < NUM_KEYS ==> node.keys[k] == word_at(bytes@, 3 + k),
                forall|k: int| 0 <= k < NUM_KEYS ==> node.values[k] == word_at(bytes@, 34 + k),
                forall|k: int| 0 <= k < i ==> node.children[k] == word_at(bytes@, 65 + k),
                node.parent == word_at(bytes@, 0),
                node.loc == word_at(bytes@, 1),
                node.len == word_at(bytes@, 2),
            decreases NUM_CHILDREN - i,
        {
            node.children[i] = read_word(bytes, 65 + i);
            i += 1;
        }
        node.leaf = flag == 1;
        proof {
            assert forall|j: int| 0 <= j < NODE_WORDS implies words(node)[j] == word_at(
                bytes@,
                j,
            ) by {
                if j >= 65 {
                    assert(words(node)[j] == node.children@[j - 65]);
                } else if j >= 34 {
                    assert(words(node)[j] == node.values@[j - 34]);
                } else if j >= 3 {
                    assert(words(node)[j] == node.keys@[j - 3]);
                }
            }
            if flag > 1 || node.len > NUM_KEYS as u64 {
                assert forall|n: Node| n.valid() && encoding(n) == bytes@ implies false by {
                    lemma_encoding_words(n, 2);
                }
            } else {
                lemma_auto_spec_u64_to_from_le_bytes();
                assert(encoding(node) =~= bytes@) by {
                    assert forall|k: int| 0 <= k < NODE_SIZE - 1 implies encoding(node)[k]
                        == bytes@[k] by {
                        let j = k / 8;
                        let chunk = bytes@.subrange(8 * j, 8 * j + 8);
                        assert(words(node)[j] == spec_u64_from_le_bytes(chunk));
                        assert(spec_u64_to_le_bytes(spec_u64_from_le_bytes(chunk)) == chunk);
                        assert(chunk[k % 8] == bytes@[8 * j + k % 8]);
                    }
                }
                lemma_decoding_of_encoding(node);
            }
        }
        if flag > 1 || node.len > NUM_KEYS as u64 {
            None
        } else {
            Some(node)
        }
    }
}

/// How often the node at an offset was asked for. Two records are equal where
/// they speak of one offset; a record comes before another where it counts less.
#[derive(Clone, Copy, Debug)]
pub struct Freq {
    /// Number of times the node was asked for.
    pub freq: u64,
    /// Offset of the node.
    pub loc: u64,
}

impl PartialEq for Freq {
    fn eq(&self, other: &Self) -> (r: bool) {
        self.loc == other.loc
    }
}

impl PartialEqSpecImpl for Freq {
    open spec fn obeys_eq_spec() -> bool {
        true
    }

    open spec fn eq_spec(&self, other: &Self) -> bool {
        self.loc == other.loc
    }
}

impl PartialOrd for Freq {
    fn partial_cmp(&self, other: &Self) -> (r: Option<Ordering>) {
        if self.freq < other.freq {
            Some(Ordering::Less)
        } else if self.freq > other.freq {
            Some(Ordering::Greater)
        } else {
            Some(Ordering::Equal)
        }
    }
}

impl PartialOrdSpecImpl for Freq {
    open spec fn obeys_partial_cmp_spec() -> bool {
        true
    }

    open spec fn partial_cmp_spec(&self, other: &Self) -> Option<Ordering> {
        if self.freq < other.freq {
            Some(Ordering::Less)
        } else if self.freq > other.freq {
            Some(Ordering::Greater)
        } else {
            Some(Ordering::Equal)
        }
    }
}

impl Freq {
    /// The record of a node that was asked for once.
    pub fn new(loc: u64) -> (r: Freq)
        ensures
            r.freq == 1,
            r.loc == loc,
    {
        Freq { freq: 1, loc }
    }
}

/// The records are ordered by their counts, totally, and compared for equality
/// by their offsets.
pub proof fn lemma_freq_order()
    ensures
        is_total_order::<Freq>(),
        has_eq::<Freq>(),
        forall|a: Freq, b: Freq| #[trigger] precedes(a, b) <==> a.freq < b.freq,
        forall|a: Freq, b: Freq| #[trigger] same(a, b) <==> a.loc == b.loc,
{
}

/// The node whose record starts at offset `pos` of `b`, if a record of a node
/// stands there.
pub open spec fn node_at(b: Seq<u8>, pos: int) -> Option<Node> {
    decoding(window(b, pos, NODE_SIZE as int))
}

/// The entries of a cache after the node `n` at offset `loc` came in: beside the
/// others while there is room, else in place of the entry at offset `coldest`. A
/// cache that may hold nothing takes nothing in.
pub open spec fn admitted(
    entries: Map<u64, Node>,
    limit: nat,
    coldest: u64,
    loc: u64,
    n: Node,
) -> Map<u64, Node> {
    if entries.len() < limit {
        entries.insert(loc, n)
    } else if entries.len() > 0 {
        entries.remove(coldest).insert(loc, n)
    } else {
        entries
    }
}

/// The records `m` hold exactly one record for each offset of `entries`.
pub open spec fn one_record_each(m: Multiset<Freq>, entries: Map<u64, Node>) -> bool {
    &&& forall|f: Freq| #[trigger] m.count(f) > 0 ==> entries.contains_key(f.loc)
    &&& forall|loc: u64| #[trigger]
        entries.contains_key(loc) ==> exists|f: Freq| #[trigger] m.count(f) > 0 && f.loc == loc
    &&& forall|f: Freq, g: Freq|
        #[trigger] m.count(f) > 0 && #[trigger] m.count(g) > 0 && f.loc == g.loc ==> f == g
    &&& forall|f: Freq| #[trigger] m.count(f) <= 1
}

/// The record of the node at offset `loc` after the node was asked for once more.
pub open spec fn bumped(f: Freq) -> Freq {
    Freq {
        freq: if f.freq < u64::MAX {
            (f.freq + 1) as u64
        } else {
            f.freq
        },
        loc: f.loc,
    }
}

/// Index of the first of the `records` that is the one of the node at `loc`.
pub open spec fn slot_of(records: Seq<Freq>, loc: u64) -> int {
    choose|i: int| is_first_match(records, Freq { freq: 1, loc }, i)
}

/// The `records` after the node at `loc`, which has one, was asked for once more:
/// its record counts one more and moves down in the queue.
pub open spec fn counted(records: Seq<Freq>, loc: u64) -> Seq<Freq> {
    sifted_down(
        records.update(slot_of(records, loc), bumped(records[slot_of(records, loc)])),
        slot_of(records, loc),
    )
}

/// The `records` after the node at `loc` came in: its record, which counts one,
/// is pushed, where there is no `room` after the root was polled.
pub open spec fn recorded(records: Seq<Freq>, room: bool, loc: u64) -> Seq<Freq> {
    if room {
        pushed(records, Freq { freq: 1, loc })
    } else if records.len() > 0 {
        pushed(polled(records), Freq { freq: 1, loc })
    } else {
        records
    }
}

/// Nodes of the tree file kept in memory by their offsets, as many as `size`
/// allows. When a node comes in and there is no room, the one asked for least
/// often leaves.
pub struct NodeCache {
    /// The most nodes that the cache takes in.
    pub size: usize,
    /// One record for each node held.
    pub freqs: PriorityQueue<Freq>,
    /// The nodes held, by their offsets.
    pub nodes: HashMap<u64, Node>,
}

impl NodeCache {
    /// The nodes held, by their offsets.
    pub open spec fn entries(&self) -> Map<u64, Node> {
        self.nodes@
    }

    /// The records of the nodes held, as the queue stores them.
    pub open spec fn records(&self) -> Seq<Freq> {
        self.freqs@
    }

    /// The most nodes that the cache takes in.
    pub open spec fn limit(&self) -> nat {
        self.size as nat
    }

    /// Offset of the node that leaves next: that of the record at the root of the
    /// queue.
    pub open spec fn coldest(&self) -> u64 {
        self.freqs@[0].loc
    }

    /// What holds of a cache between calls: the records are a heap, and there is
    /// exactly one for each node held.
    pub open spec fn wf(&self) -> bool {
        &&& is_heap(self.freqs@)
        &&& self.nodes@.dom().finite()
        &&& one_record_each(self.freqs@.to_multiset(), self.nodes@)
    }

    /// The nodes held are finitely many, there are records exactly where there
    /// are nodes, and where there are any, the one that leaves next is among
    /// them.
    pub proof fn lemma_entries(&self)
        requires
            self.wf(),
        ensures
            self.entries().dom().finite(),
            self.records().len() > 0 <==> self.entries().len() > 0,
            self.records().len() > 0 ==> self.entries().contains_key(self.coldest()),
    {
        broadcast use vstd::set::group_set_axioms;

        self.freqs@.to_multiset_ensures();
        if self.freqs@.len() > 0 {
            assert(self.freqs@.contains(self.freqs@[0]));
            assert(self.freqs@.to_multiset().count(self.freqs@[0]) > 0);
            assert(self.nodes@.dom().contains(self.coldest()));
            assert(self.nodes@.dom().len() > 0) by {
                if self.nodes@.dom().len() == 0 {
                    assert(self.nodes@.dom() =~= Set::empty());
                }
            }
        }
        if self.nodes@.len() > 0 {
            let loc = self.nodes@.dom().choose();
            assert(self.nodes@.contains_key(loc));
            let f = choose|f: Freq| #[trigger]
                self.freqs@.to_multiset().count(f) > 0 && f.loc == loc;
            assert(self.freqs@.contains(f));
        }
    }

    /// No node held was asked for less often than the one that leaves next.
    pub proof fn lemma_coldest_is_least_used(&self, i: int)
        requires
            self.wf(),
            0 <= i < self.records().len(),
        ensures
            self.records()[0].loc == self.coldest(),
            self.records()[0].freq <= self.records()[i].freq,
            self.entries().contains_key(self.coldest()),
    {
        lemma_freq_order();
        lemma_root_is_least(self.freqs@, i);
        self.freqs@.to_multiset_ensures();
        assert(self.freqs@.contains(self.freqs@[0]));
        assert(self.freqs@.to_multiset().count(self.freqs@[0]) > 0);
    }

    /// An empty cache that takes in up to `size` nodes.
    pub fn new(size: usize) -> (r: Self)
        ensures
            r.wf(),
            r.limit() == size,
            r.entries() == Map::<u64, Node>::empty(),
            r.records().len() == 0,
    {
        broadcast use group_hash_axioms;

        let r = NodeCache { size, freqs: PriorityQueue::new(), nodes: HashMap::<u64, Node>::new() };
        proof {
            assert(r.nodes@ =~= Map::<u64, Node>::empty());
            r.freqs@.to_multiset_ensures();
            assert forall|f: Freq| r.freqs@.to_multiset().count(f) == 0 by {
                assert(!r.freqs@.contains(f));
            }
        }
        r
    }

    /// The node at offset `node_loc`: the one held, which is then counted as
    /// asked for once more, or else the one read from `file`, which the cache then
    /// takes in as `admitted` says. Where reading fails the cache stays as it is.
    /// A cache that holds no more nodes than its limit holds no more afterwards.
    pub fn get<F: Storage>(&mut self, node_loc: u64, file: &mut F) -> (r: Result<Node, Error>)
        requires
            old(self).wf(),
        ensures
            final(self).wf(),
            final(self).limit() == old(self).limit(),
            final(file).bytes() == old(file).bytes(),
            final(file).steady() == old(file).steady(),
            final(file).room() == old(file).room(),
            old(file).steady() ==> match r {
                Ok(_) => true,
                Err(e) => e is Corrupt && node_at(old(file).bytes(), node_loc as int) is None,
            },
            old(self).entries().len() <= old(self).limit() ==> final(self).entries().len()
                <= final(self).limit(),
            old(self).entries().contains_key(node_loc) ==> {
                &&& r matches Ok(n)
                &&& n == old(self).entries()[node_loc]
                &&& final(self).entries() == old(self).entries()
                &&& final(self).records() == counted(old(self).records(), node_loc)
            },
            !old(self).entries().contains_key(node_loc) ==> match r {
                Ok(n) => {
                    &&& node_at(old(file).bytes(), node_loc as int) == Some(n)
                    &&& final(self).entries() == admitted(
                        old(self).entries(),
                        old(self).limit(),
                        old(self).coldest(),
                        node_loc,
                        n,
                    )
                    &&& final(self).records() == recorded(
                        old(self).records(),
                        old(self).entries().len() < old(self).limit(),
                        node_loc,
                    )
                },
                Err(_) => *final(self) == *old(self),
            },
    {
        broadcast use group_hash_axioms;
        broadcast use vstd::multiset::group_multiset_axioms;
        broadcast use vstd::set::group_set_axioms;

        proof {
            lemma_freq_order();
            self.freqs@.to_multiset_ensures();
            self.lemma_entries();
        }
        let ghost then = self.freqs@;
        if self.nodes.contains_key(&node_loc) {
            let bump = |x: &mut Freq|
                ensures
                    *final(x) == bumped(*old(x)),
                {
                    if x.freq < u64::MAX {
                        x.freq = x.freq + 1;
                    }
                };
            proof {
                let f = choose|f: Freq| #[trigger]
                    then.to_multiset().count(f) > 0 && f.loc == node_loc;
                assert(then.contains(f));
                let i = choose|i: int| 0 <= i < then.len() && then[i] == f;
                assert(same(then[i], Freq { freq: 1, loc: node_loc }));
                assert(has_match(then, Freq { freq: 1, loc: node_loc }));
            }
            let found = self.freqs.update_key(Freq::new(node_loc), bump);
            proof {
                assert(found is Ok);
                let (i, x) = choose|i: int, x: &mut Freq|
                    #![trigger call_ensures(bump, (x,), ()), then[i]]
                    {
                        &&& 0 <= i < then.len()
                        &&& *x == then[i]
                        &&& call_ensures(bump, (x,), ())
                        &&& is_first_match(then, Freq { freq: 1, loc: node_loc }, i)
                        &&& self.freqs@ == sifted_down(then.update(i, *final(x)), i)
                        &&& self.freqs@.to_multiset() == then.update(i, *final(x)).to_multiset()
                        &&& is_heap(then) && !precedes(*final(x), *x) ==> is_heap(self.freqs@)
                    };
                let m = *final(x);
                assert(m == bumped(then[i]));
                let at = slot_of(then, node_loc);
                assert(is_first_match(then, Freq { freq: 1, loc: node_loc }, at));
                assert(at == i) by {
                    if at < i {
                        assert(same(then[at], Freq { freq: 1, loc: node_loc }));
                    } else if i < at {
                        assert(same(then[i], Freq { freq: 1, loc: node_loc }));
                    }
                }
                vstd::seq_lib::to_multiset_update(then, i, m);
                assert(then.contains(then[i]));
                assert(then.to_multiset().count(then[i]) > 0);
                assert(one_record_each(self.freqs@.to_multiset(), self.nodes@)) by {
                    let was = then.to_multiset();
                    let now = self.freqs@.to_multiset();
                    assert(now == was.insert(m).remove(then[i]));
                    assert(was.count(then[i]) == 1);
                    if m != then[i] {
                        assert(was.count(m) == 0);
                    }
                    assert forall|loc: u64| #[trigger]
                        self.nodes@.contains_key(loc) implies exists|f: Freq| #[trigger]
                        now.count(f) > 0 && f.loc == loc by {
                        let f = choose|f: Freq| #[trigger] was.count(f) > 0 && f.loc == loc;
                        if f == then[i] {
                            assert(now.count(m) > 0 && m.loc == loc);
                        } else {
                            assert(now.count(f) > 0 && f.loc == loc);
                        }
                    }
                }
            }
            Ok(*self.nodes.get(&node_loc).unwrap())
        } else {
            let node = match NodeCache::read_node(node_loc, file) {
                Ok(n) => n,
                Err(e) => {
                    return Err(e);
                },
            };
            let ghost held = self.nodes@;
            if self.nodes.len() < self.size {
                self.nodes.insert(node_loc, node);
                self.freqs.push(Freq::new(node_loc));
                proof {
                    let x = Freq { freq: 1, loc: node_loc };
                    let was = then.to_multiset();
                    let now = self.freqs@.to_multiset();
                    assert(was.count(x) == 0);
                    assert(one_record_each(now, self.nodes@)) by {
                        assert forall|loc: u64| #[trigger]
                            self.nodes@.contains_key(loc) implies exists|f: Freq| #[trigger]
                            now.count(f) > 0 && f.loc == loc by {
                            if loc == node_loc {
                                assert(now.count(x) > 0 && x.loc == loc);
                            } else {
                                let f = choose|f: Freq| #[trigger]
                                    was.count(f) > 0 && f.loc == loc;
                                assert(now.count(f) > 0 && f.loc == loc);
                            }
                        }
                    }
                }
            } else {
                match self.freqs.poll() {
                    Some(lfu) => {
                        let ghost left = self.freqs@;
                        self.nodes.remove(&lfu.loc);
                        self.freqs.push(Freq::new(node_loc));
                        self.nodes.insert(node_loc, node);
                        proof {
                            let x = Freq { freq: 1, loc: node_loc };
                            let was = then.to_multiset();
                            let mid = left.to_multiset();
                            let now = self.freqs@.to_multiset();
                            assert(then.contains(then[0]));
                            assert(was.count(lfu) == 1);
                            assert(held.contains_key(lfu.loc));
                            assert(held.len() > 0);
                            assert(was == mid.insert(lfu));
                            assert(mid.count(lfu) == 0);
                            assert(was.count(x) == 0);
                            assert(one_record_each(now, self.nodes@)) by {
                                assert forall|f: Freq| #[trigger] now.count(f) > 0 implies self.nodes@.contains_key(
                                    f.loc,
                                ) by {
                                    if f != x {
                                        assert(mid.count(f) > 0);
                                        assert(was.count(f) > 0);
                                    }
                                }
                                assert forall|loc: u64| #[trigger]
                                    self.nodes@.contains_key(loc) implies exists|f: Freq|
                                    #[trigger] now.count(f) > 0 && f.loc == loc by {
                                    if loc == node_loc {
                                        assert(now.count(x) > 0 && x.loc == loc);
                                    } else {
                                        let f = choose|f: Freq| #[trigger]
                                            was.count(f) > 0 && f.loc == loc;
                                        assert(mid.count(f) > 0);
                                        assert(now.count(f) > 0 && f.loc == loc);
                                    }
                                }
                                assert forall|f: Freq, g: Freq|
                                    #[trigger] now.count(f) > 0 && #[trigger] now.count(g) > 0
                                        && f.loc == g.loc implies f == g by {
                                    if f != x {
                                        assert(was.count(f) > 0);
                                    }
                                    if g != x {
                                        assert(was.count(g) > 0);
                                    }
                                }
                                assert forall|f: Freq| #[trigger] now.count(f) <= 1 by {
                                    assert(mid.count(f) <= was.count(f));
                                }
                            }
                        }
                    },
                    None => {
                        proof {
                            assert(held =~= Map::<u64, Node>::empty()) by {
                                assert forall|loc: u64| !held.contains_key(loc) by {
                                    if held.contains_key(loc) {
                                        let f = choose|f: Freq| #[trigger]
                                            then.to_multiset().count(f) > 0 && f.loc == loc;
                                        assert(then.contains(f));
                                    }
                                }
                            }
                        }
                    },
                }
            }
            Ok(node)
        }
    }

    /// Replaces the node held for the offset of `node` by `node`. A cache that
    /// holds none for that offset stays as it is.
    pub fn update(&mut self, node: &Node)
        requires
            old(self).wf(),
        ensures
            final(self).wf(),
            final(self).limit() == old(self).limit(),
            final(self).records() == old(self).records(),
            final(self).entries() == if old(self).entries().contains_key(node.loc) {
                old(self).entries().insert(node.loc, *node)
            } else {
                old(self).entries()
            },
    {
        broadcast use group_hash_axioms;

        if self.nodes.contains_key(&node.loc) {
            self.nodes.insert(node.loc, *node);
        }
    }

    /// Sets the number of nodes that the cache takes in from now on. The nodes
    /// held stay.
    pub fn set_size(&mut self, size: usize)
        requires
            old(self).wf(),
        ensures
            final(self).wf(),
            final(self).limit() == size,
            final(self).entries() == old(self).entries(),
            final(self).records() == old(self).records(),
    {
        self.size = size;
    }

    /// The node at offset `pos` of `file`. `Corrupt` where the bytes there are not
    /// the record of a node.
    fn read_node<F: Storage>(pos: u64, file: &mut F) -> (r: Result<Node, Error>)
        ensures
            final(file).bytes() == old(file).bytes(),
            final(file).steady() == old(file).steady(),
            final(file).room() == old(file).room(),
            r matches Ok(n) ==> node_at(old(file).bytes(), pos as int) == Some(n),
            old(file).steady() ==> match r {
                Ok(_) => true,
                Err(e) => e is Corrupt && node_at(old(file).bytes(), pos as int) is None,
            },
    {
        match file.read_at(pos, NODE_SIZE) {
            Ok(bytes) => match Node::decode(bytes.as_slice()) {
                Some(n) => Ok(n),
                None => Err(Error::Corrupt),
            },
            Err(e) => Err(e),
        }
    }
}

} // verus!
