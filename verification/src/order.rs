//! The order of the keys in the tree: what makes a search find what was inserted.
//!
//! A subtree is good where its keys read, stand in strictly ascending order
//! between the bounds that its parent sets, every node but the root holds `T - 1`
//! keys at least, and all leaves stand at one depth. The lemmas here show that a
//! search in a good tree goes the way an insertion went.

use vstd::prelude::*;
use crate::codec::holds_at;
use crate::codec::lemma_appended;
use crate::codec::is_self_delimiting;
use crate::codec::lemma_value_at;
use crate::codec::value_at;
use crate::codec::Codec;
use crate::node::node_at;
use crate::node::Node;
use crate::node::NODE_SIZE;
use crate::node::NUM_KEYS;
use crate::node::T;
use crate::priority_queue::follows;
use crate::priority_queue::has_eq;
use crate::priority_queue::is_total_order;
use crate::priority_queue::precedes;
use crate::priority_queue::same;
use crate::test_tree::insert_index;
use crate::test_tree::lookup;
use crate::test_tree::split_done;
use crate::test_tree::stop_index;
use crate::test_tree::Lookup;

verus! {

/// The offset `loc` is one at which the record of a node starts.
pub open spec fn on_grid(loc: int) -> bool {
    loc >= 8 && (loc - 8) % 777 == 0
}

/// The record of a node starts at `loc` and ends within `b`.
pub open spec fn in_file(b: Seq<u8>, loc: int) -> bool {
    on_grid(loc) && loc + NODE_SIZE <= b.len()
}

/// The keys of `K` are totally ordered, two keys are equal exactly where neither
/// comes before the other, the operators compute all that, and the records of
/// the keys tell their own length.
pub open spec fn is_ordered_key<K: Codec + PartialOrd>() -> bool {
    &&& is_self_delimiting::<K>()
    &&& is_total_order::<K>()
    &&& has_eq::<K>()
    &&& forall|a: K, b: K| #[trigger] same(a, b) <==> !precedes(a, b) && !precedes(b, a)
}

/// `k` comes after the lower bound `lo`, if there is one.
pub open spec fn above<K: PartialOrd>(lo: Option<K>, k: K) -> bool {
    lo matches Some(l) ==> precedes(l, k)
}

/// `k` comes before the upper bound `hi`, if there is one.
pub open spec fn below<K: PartialOrd>(hi: Option<K>, k: K) -> bool {
    hi matches Some(h) ==> precedes(k, h)
}

/// The key at index `i` of the node `n`, as the key store `keys` holds it.
pub open spec fn key_of<K: Codec>(keys: Seq<u8>, n: Node, i: int) -> K {
    value_at::<K>(keys, n.keys[i] as int)->0
}

/// The keys of the node `n`, as the key store `keys` holds them.
pub open spec fn keys_of<K: Codec>(keys: Seq<u8>, n: Node) -> Seq<K> {
    Seq::new(n.len as nat, |i: int| key_of::<K>(keys, n, i))
}

/// Every key of the node `n` reads from the key store `keys`.
pub open spec fn reads<K: Codec>(keys: Seq<u8>, n: Node) -> bool {
    forall|i: int| 0 <= i < n.len ==> (#[trigger] value_at::<K>(keys, n.keys[i] as int)) is Some
}

/// The keys `ks` ascend strictly and lie between `lo` and `hi`.
pub open spec fn sorted_within<K: PartialOrd>(ks: Seq<K>, lo: Option<K>, hi: Option<K>) -> bool {
    &&& forall|i: int, j: int| 0 <= i < j < ks.len() ==> precedes(#[trigger] ks[i], #[trigger] ks[j])
    &&& forall|i: int| 0 <= i < ks.len() ==> above(lo, #[trigger] ks[i]) && below(hi, ks[i])
}

/// The lower bound of the child at index `i` of a node with the keys `ks` and the
/// lower bound `lo`.
pub open spec fn lo_of<K>(ks: Seq<K>, lo: Option<K>, i: int) -> Option<K> {
    if i <= 0 {
        lo
    } else {
        Some(ks[i - 1])
    }
}

/// The upper bound of the child at index `i` of a node with the keys `ks` and the
/// upper bound `hi`.
pub open spec fn hi_of<K>(ks: Seq<K>, hi: Option<K>, i: int) -> Option<K> {
    if i >= ks.len() {
        hi
    } else {
        Some(ks[i])
    }
}

/// The subtree of `tree` at offset `loc` is good: it is `h` levels above its
/// leaves, its keys lie between `lo` and `hi`, its root holds `least` keys at
/// least, and all of it stands before offset `end`.
pub open spec fn good<K: Codec + PartialOrd>(
    tree: Seq<u8>,
    keys: Seq<u8>,
    loc: int,
    h: nat,
    lo: Option<K>,
    hi: Option<K>,
    least: int,
    end: int,
) -> bool
    decreases h,
{
    &&& in_file(tree, loc)
    &&& loc + NODE_SIZE <= end
    &&& node_at(tree, loc) is Some
    &&& {
        let n = node_at(tree, loc)->0;
        let ks = keys_of::<K>(keys, n);
        &&& n.loc == loc
        &&& n.len >= least
        &&& (h == 0) == n.leaf
        &&& reads::<K>(keys, n)
        &&& sorted_within(ks, lo, hi)
        &&& h > 0 ==> n.len >= 1 && forall|i: int|
            0 <= i <= n.len ==> good(
                tree,
                keys,
                #[trigger] n.children[i] as int,
                (h - 1) as nat,
                lo_of(ks, lo, i),
                hi_of(ks, hi, i),
                crate::node::T - 1,
                end,
            )
    }
}

/// What comes before what comes before a third comes before the third.
pub proof fn lemma_before_before<K: PartialOrd>(a: K, b: K, c: K)
    requires
        is_total_order::<K>(),
        precedes(a, b),
        precedes(b, c),
    ensures
        precedes(a, c),
{
    assert(!precedes(b, a));
    assert(!precedes(c, b));
    if !precedes(a, c) {
        // c <= a and a <= b give c <= b.
        assert(!precedes(b, c));
    }
}

/// What comes before what does not come after a third comes before the third.
pub proof fn lemma_before_not_after<K: PartialOrd>(a: K, b: K, c: K)
    requires
        is_total_order::<K>(),
        precedes(a, b),
        !precedes(c, b),
    ensures
        precedes(a, c),
{
    if !precedes(a, c) {
        // b <= c and c <= a give b <= a.
        assert(!precedes(a, b));
    }
}

/// What does not come after what comes before a third comes before the third.
pub proof fn lemma_not_after_before<K: PartialOrd>(a: K, b: K, c: K)
    requires
        is_total_order::<K>(),
        !precedes(b, a),
        precedes(b, c),
    ensures
        precedes(a, c),
{
    if !precedes(a, c) {
        // c <= a and a <= b give c <= b.
        assert(!precedes(b, c));
    }
}

/// The bytes `before` are the beginning of `after`.
pub open spec fn is_prefix(before: Seq<u8>, after: Seq<u8>) -> bool {
    before.len() <= after.len() && after.subrange(0, before.len() as int) == before
}

/// A key that reads from a store reads from every store that begins with it.
pub proof fn lemma_still_reads<K: Codec>(keys: Seq<u8>, after: Seq<u8>, at: int)
    requires
        is_self_delimiting::<K>(),
        is_prefix(keys, after),
        value_at::<K>(keys, at) is Some,
    ensures
        value_at::<K>(after, at) == value_at::<K>(keys, at),
{
    let x = choose|x: K| holds_at(keys, at, x.encoding());
    assert(holds_at(keys, at, x.encoding()));
    lemma_value_at(keys, at, x);
    let e = x.encoding();
    assert(after.subrange(at, at + e.len()) =~= after.subrange(0, keys.len() as int).subrange(
        at,
        at + e.len(),
    ));
    lemma_value_at(after, at, x);
}

/// The keys of a node read from a longer key store as they did.
pub proof fn lemma_keys_still_read<K: Codec>(keys: Seq<u8>, after: Seq<u8>, n: Node)
    requires
        is_self_delimiting::<K>(),
        is_prefix(keys, after),
        reads::<K>(keys, n),
    ensures
        reads::<K>(after, n),
        keys_of::<K>(after, n) == keys_of::<K>(keys, n),
{
    assert forall|i: int| 0 <= i < n.len implies (#[trigger] value_at::<K>(
        after,
        n.keys[i] as int,
    )) == value_at::<K>(keys, n.keys[i] as int) by {
        lemma_still_reads::<K>(keys, after, n.keys[i] as int);
    }
    assert(keys_of::<K>(after, n) =~= keys_of::<K>(keys, n));
}

/// Index at which the search for `k` stops in the keys `ks`, scanning from index
/// `i` on: that of the first key that `k` does not come after, or the number of
/// keys.
pub open spec fn scan_up<K: PartialOrd>(ks: Seq<K>, k: K, i: int) -> int
    decreases ks.len() - i,
{
    if i < 0 || i >= ks.len() {
        ks.len() as int
    } else if follows(k, ks[i]) {
        scan_up(ks, k, i + 1)
    } else {
        i
    }
}

/// Index at which `k` goes into the keys `ks`, scanning down from index `i`: one
/// more than that of the last key that `k` does not come before, or 0.
pub open spec fn scan_down<K: PartialOrd>(ks: Seq<K>, k: K, i: int) -> int
    decreases i,
{
    if i <= 0 || i > ks.len() {
        0
    } else if precedes(k, ks[i - 1]) {
        scan_down(ks, k, i - 1)
    } else {
        i
    }
}

/// In a node whose keys read, the search stops where it stops in the keys.
pub proof fn lemma_stop_index<K: Codec + PartialOrd>(keys: Seq<u8>, n: Node, k: K, i: int)
    requires
        reads::<K>(keys, n),
        0 <= i <= n.len,
    ensures
        stop_index(keys, n, k, i) == Some(scan_up(keys_of::<K>(keys, n), k, i)),
    decreases n.len - i,
{
    let ks = keys_of::<K>(keys, n);
    if i < n.len {
        assert(value_at::<K>(keys, n.keys[i] as int) is Some);
        assert(ks[i] == value_at::<K>(keys, n.keys[i] as int)->0);
        if follows(k, ks[i]) {
            lemma_stop_index(keys, n, k, i + 1);
        }
    }
}

/// In a node whose keys read, a key goes in where it goes into the keys.
pub proof fn lemma_insert_index<K: Codec + PartialOrd>(keys: Seq<u8>, n: Node, k: K, i: int)
    requires
        reads::<K>(keys, n),
        0 <= i <= n.len,
    ensures
        insert_index(keys, n, k, i) == Some(scan_down(keys_of::<K>(keys, n), k, i)),
    decreases i,
{
    let ks = keys_of::<K>(keys, n);
    if i > 0 {
        assert(value_at::<K>(keys, n.keys[i - 1] as int) is Some);
        assert(ks[i - 1] == value_at::<K>(keys, n.keys[i - 1] as int)->0);
        if precedes(k, ks[i - 1]) {
            lemma_insert_index(keys, n, k, i - 1);
        }
    }
}

/// Where the scan up stops.
pub proof fn lemma_scan_up<K: PartialOrd>(ks: Seq<K>, k: K, i: int)
    requires
        0 <= i <= ks.len(),
    ensures
        i <= scan_up(ks, k, i) <= ks.len(),
        forall|j: int| i <= j < scan_up(ks, k, i) ==> follows(k, #[trigger] ks[j]),
        scan_up(ks, k, i) < ks.len() ==> !follows(k, ks[scan_up(ks, k, i)]),
    decreases ks.len() - i,
{
    if i < ks.len() && follows(k, ks[i]) {
        lemma_scan_up(ks, k, i + 1);
    }
}

/// Where the scan down stops.
pub proof fn lemma_scan_down<K: PartialOrd>(ks: Seq<K>, k: K, i: int)
    requires
        0 <= i <= ks.len(),
    ensures
        0 <= scan_down(ks, k, i) <= i,
        forall|j: int| scan_down(ks, k, i) <= j < i ==> precedes(k, #[trigger] ks[j]),
        scan_down(ks, k, i) > 0 ==> !precedes(k, ks[scan_down(ks, k, i) - 1]),
    decreases i,
{
    if i > 0 && precedes(k, ks[i - 1]) {
        lemma_scan_down(ks, k, i - 1);
    }
}

/// In ascending keys the scan up stops at the one index before which every key
/// comes before `k` and at which none does.
pub proof fn lemma_rank<K: PartialOrd>(ks: Seq<K>, lo: Option<K>, hi: Option<K>, k: K, r: int)
    requires
        is_total_order::<K>(),
        sorted_within(ks, lo, hi),
        0 <= r <= ks.len(),
        forall|j: int| 0 <= j < r ==> precedes(#[trigger] ks[j], k),
        r < ks.len() ==> !precedes(ks[r], k),
    ensures
        scan_up(ks, k, 0) == r,
{
    lemma_scan_up(ks, k, 0);
    let s = scan_up(ks, k, 0);
    if s < r {
        assert(precedes(ks[s], k));
        assert(follows(k, ks[s]));
    } else if s > r {
        assert(follows(k, ks[r]));
        assert(precedes(ks[r], k));
    }
}

/// In ascending keys that hold no key equal to `k`, `k` goes in where the search
/// for it stops.
pub proof fn lemma_scans_agree<K: PartialOrd>(ks: Seq<K>, lo: Option<K>, hi: Option<K>, k: K)
    requires
        is_total_order::<K>(),
        sorted_within(ks, lo, hi),
        forall|a: K, b: K| #[trigger] same(a, b) <==> !precedes(a, b) && !precedes(b, a),
        forall|j: int| 0 <= j < ks.len() ==> !same(k, #[trigger] ks[j]),
    ensures
        scan_down(ks, k, ks.len() as int) == scan_up(ks, k, 0),
{
    lemma_scan_down(ks, k, ks.len() as int);
    let r = scan_down(ks, k, ks.len() as int);
    assert forall|j: int| 0 <= j < r implies precedes(#[trigger] ks[j], k) by {
        assert(!precedes(k, ks[r - 1]));
        assert(!same(k, ks[r - 1]));
        assert(precedes(ks[r - 1], k));
        if j < r - 1 {
            lemma_before_before(ks[j], ks[r - 1], k);
        }
    }
    if r < ks.len() {
        assert(precedes(k, ks[r]));
    }
    lemma_rank(ks, lo, hi, k, r);
}

/// What the search for `k` comes to at a node `n` whose keys are `ks`: the value
/// of the key at which it stops, if that is `k`, and else what it comes to in the
/// child at that index.
pub open spec fn lookup_via<K: Codec + PartialOrd>(
    tree: Seq<u8>,
    keys: Seq<u8>,
    n: Node,
    ks: Seq<K>,
    k: K,
    fuel: nat,
) -> Lookup {
    let r = scan_up(ks, k, 0);
    if n.len == 0 {
        Lookup::Absent
    } else if r < n.len && same(k, ks[r]) {
        Lookup::Found(n.values[r])
    } else if n.leaf {
        Lookup::Absent
    } else if fuel == 0 {
        Lookup::Broken
    } else {
        match node_at(tree, n.children[r] as int) {
            Some(c) => if on_grid(n.children[r] as int) && c.loc == n.children[r] {
                lookup(tree, keys, c, k, (fuel - 1) as nat)
            } else {
                Lookup::Broken
            },
            None => Lookup::Broken,
        }
    }
}

/// In a node whose keys read, the search comes to what `lookup_via` says.
pub proof fn lemma_lookup_node<K: Codec + PartialOrd>(
    tree: Seq<u8>,
    keys: Seq<u8>,
    n: Node,
    k: K,
    fuel: nat,
)
    requires
        reads::<K>(keys, n),
    ensures
        lookup(tree, keys, n, k, fuel) == lookup_via(tree, keys, n, keys_of::<K>(keys, n), k, fuel),
{
    let ks = keys_of::<K>(keys, n);
    lemma_stop_index(keys, n, k, 0);
    lemma_scan_up(ks, k, 0);
    let r = scan_up(ks, k, 0);
    if r < n.len {
        assert(value_at::<K>(keys, n.keys[r] as int) is Some);
        assert(ks[r] == value_at::<K>(keys, n.keys[r] as int)->0);
    }
}

/// The node at offset `l` of `tree` stands beyond `end`, or its first key does
/// not lie between `lo` and `hi`: it is no node of a good subtree with these
/// bounds.
pub open spec fn far<K: Codec + PartialOrd>(
    tree: Seq<u8>,
    keys: Seq<u8>,
    l: int,
    lo: Option<K>,
    hi: Option<K>,
    end: int,
) -> bool {
    ||| l + NODE_SIZE > end
    ||| {
        let n = node_at(tree, l)->0;
        &&& node_at(tree, l) is Some
        &&& n.len >= 1
        &&& value_at::<K>(keys, n.keys[0] as int) is Some
        &&& !(above(lo, key_of::<K>(keys, n, 0)) && below(hi, key_of::<K>(keys, n, 0)))
    }
}

/// The tree store `after` is no shorter than `tree`, and every node that it holds
/// otherwise than `tree` does is far from the bounds `lo` and `hi`.
pub open spec fn kept<K: Codec + PartialOrd>(
    tree: Seq<u8>,
    keys: Seq<u8>,
    after: Seq<u8>,
    lo: Option<K>,
    hi: Option<K>,
    end: int,
) -> bool {
    &&& tree.len() <= after.len()
    &&& forall|l: int|
        in_file(tree, l) && #[trigger] node_at(after, l) != node_at(tree, l) ==> far::<K>(
            tree,
            keys,
            l,
            lo,
            hi,
            end,
        )
}

/// What is far from bounds is far from narrower bounds.
pub proof fn lemma_far_narrow<K: Codec + PartialOrd>(
    tree: Seq<u8>,
    keys: Seq<u8>,
    l: int,
    lo: Option<K>,
    hi: Option<K>,
    lo2: Option<K>,
    hi2: Option<K>,
    end: int,
)
    requires
        is_total_order::<K>(),
        far::<K>(tree, keys, l, lo, hi, end),
        lo2 == lo || (lo2 is Some && above(lo, lo2->0)),
        hi2 == hi || (hi2 is Some && below(hi, hi2->0)),
    ensures
        far::<K>(tree, keys, l, lo2, hi2, end),
{
    if l + NODE_SIZE <= end {
        let n = node_at(tree, l)->0;
        let k0 = key_of::<K>(keys, n, 0);
        if !above(lo, k0) {
            if lo2 != lo {
                if precedes(lo2->0, k0) {
                    lemma_before_before(lo->0, lo2->0, k0);
                }
            }
        } else {
            if hi2 != hi {
                if precedes(k0, hi2->0) {
                    lemma_before_before(k0, hi2->0, hi->0);
                }
            }
        }
    }
}

/// A good subtree stays good, and every search in it comes to what it came to,
/// where the tree store changed far from it only and the key store grew.
pub proof fn lemma_frame<K: Codec + PartialOrd>(
    tree: Seq<u8>,
    keys: Seq<u8>,
    after: Seq<u8>,
    keys_after: Seq<u8>,
    loc: int,
    h: nat,
    lo: Option<K>,
    hi: Option<K>,
    least: int,
    end: int,
)
    requires
        is_ordered_key::<K>(),
        good::<K>(tree, keys, loc, h, lo, hi, least, end),
        least >= 1,
        is_prefix(keys, keys_after),
        kept::<K>(tree, keys, after, lo, hi, end),
    ensures
        good::<K>(after, keys_after, loc, h, lo, hi, least, end),
        node_at(after, loc) == node_at(tree, loc),
        forall|k: K| #[trigger]
            lookup(after, keys_after, node_at(tree, loc)->0, k, h) == lookup(
                tree,
                keys,
                node_at(tree, loc)->0,
                k,
                h,
            ),
    decreases h,
{
    let n = node_at(tree, loc)->0;
    let ks = keys_of::<K>(keys, n);
    assert(value_at::<K>(keys, n.keys[0] as int) is Some);
    assert(ks[0] == key_of::<K>(keys, n, 0));
    assert(above(lo, ks[0]) && below(hi, ks[0]));
    assert(node_at(after, loc) == node_at(tree, loc));
    lemma_keys_still_read::<K>(keys, keys_after, n);
    if h > 0 {
        assert forall|i: int| 0 <= i <= n.len implies good::<K>(
            after,
            keys_after,
            #[trigger] n.children[i] as int,
            (h - 1) as nat,
            lo_of(ks, lo, i),
            hi_of(ks, hi, i),
            crate::node::T - 1,
            end,
        ) && node_at(after, n.children[i] as int) == node_at(tree, n.children[i] as int)
            && (forall|k: K| #[trigger]
            lookup(after, keys_after, node_at(tree, n.children[i] as int)->0, k, (h - 1) as nat)
                == lookup(tree, keys, node_at(tree, n.children[i] as int)->0, k, (h - 1) as nat)) by {
            let lo2 = lo_of(ks, lo, i);
            let hi2 = hi_of(ks, hi, i);
            assert forall|l: int|
                in_file(tree, l) && #[trigger] node_at(after, l) != node_at(
                    tree,
                    l,
                ) implies far::<K>(tree, keys, l, lo2, hi2, end) by {
                lemma_far_narrow::<K>(tree, keys, l, lo, hi, lo2, hi2, end);
            }
            lemma_frame::<K>(
                tree,
                keys,
                after,
                keys_after,
                n.children[i] as int,
                (h - 1) as nat,
                lo2,
                hi2,
                crate::node::T - 1,
                end,
            );
        }
    }
    assert forall|k: K| #[trigger]
        lookup(after, keys_after, n, k, h) == lookup(tree, keys, n, k, h) by {
        lemma_lookup_node::<K>(after, keys_after, n, k, h);
        lemma_lookup_node::<K>(tree, keys, n, k, h);
        lemma_scan_up(ks, k, 0);
    }
}

/// A search in a good subtree needs no more fuel than the subtree is high, and
/// ends: it finds the key or finds that the subtree holds none.
pub proof fn lemma_fuel<K: Codec + PartialOrd>(
    tree: Seq<u8>,
    keys: Seq<u8>,
    loc: int,
    h: nat,
    lo: Option<K>,
    hi: Option<K>,
    least: int,
    end: int,
    k: K,
    fuel: nat,
)
    requires
        good::<K>(tree, keys, loc, h, lo, hi, least, end),
        fuel >= h,
    ensures
        lookup(tree, keys, node_at(tree, loc)->0, k, fuel) == lookup(
            tree,
            keys,
            node_at(tree, loc)->0,
            k,
            h,
        ),
        !(lookup(tree, keys, node_at(tree, loc)->0, k, h) is Broken),
    decreases h,
{
    let n = node_at(tree, loc)->0;
    let ks = keys_of::<K>(keys, n);
    lemma_lookup_node::<K>(tree, keys, n, k, fuel);
    lemma_lookup_node::<K>(tree, keys, n, k, h);
    lemma_scan_up(ks, k, 0);
    if h > 0 {
        let r = scan_up(ks, k, 0);
        lemma_fuel::<K>(
            tree,
            keys,
            n.children[r] as int,
            (h - 1) as nat,
            lo_of(ks, lo, r),
            hi_of(ks, hi, r),
            crate::node::T - 1,
            end,
            k,
            (fuel - 1) as nat,
        );
    }
}

/// The search for `k` in the keys `ks` stops at a key equal to `k`.
pub open spec fn hits<K: PartialOrd>(ks: Seq<K>, k: K) -> bool {
    scan_up(ks, k, 0) < ks.len() && same(k, ks[scan_up(ks, k, 0)])
}

/// Where the search for `k` in ascending keys stops at no key equal to `k`, no
/// key is equal to `k`.
pub proof fn lemma_miss<K: Codec + PartialOrd>(ks: Seq<K>, lo: Option<K>, hi: Option<K>, k: K)
    requires
        is_ordered_key::<K>(),
        sorted_within(ks, lo, hi),
        !hits(ks, k),
    ensures
        forall|j: int| 0 <= j < ks.len() ==> !same(k, #[trigger] ks[j]),
{
    assert forall|j: int| 0 <= j < ks.len() implies !same(k, #[trigger] ks[j]) by {
        if same(k, ks[j]) {
            assert forall|i: int| 0 <= i < j implies precedes(#[trigger] ks[i], k) by {
                lemma_before_not_after(ks[i], ks[j], k);
            }
            lemma_rank(ks, lo, hi, k, j);
        }
    }
}

/// What a key put into ascending keys at its place does to them: they ascend
/// still, the search for the key stops at it, and the search for any other key
/// stops at the key at which it stopped.
pub proof fn lemma_put<K: Codec + PartialOrd>(
    ks: Seq<K>,
    lo: Option<K>,
    hi: Option<K>,
    k: K,
    other: K,
)
    requires
        is_ordered_key::<K>(),
        sorted_within(ks, lo, hi),
        above(lo, k),
        below(hi, k),
        !hits(ks, k),
    ensures
        0 <= scan_up(ks, k, 0) <= ks.len(),
        sorted_within(ks.insert(scan_up(ks, k, 0), k), lo, hi),
        scan_up(ks.insert(scan_up(ks, k, 0), k), k, 0) == scan_up(ks, k, 0),
        hits(ks.insert(scan_up(ks, k, 0), k), k),
        forall|j: int| 0 <= j < scan_up(ks, k, 0) ==> precedes(#[trigger] ks[j], k),
        forall|j: int| scan_up(ks, k, 0) <= j < ks.len() ==> precedes(k, #[trigger] ks[j]),
        !same(other, k) ==> {
            let r = scan_up(ks, k, 0);
            let was = scan_up(ks, other, 0);
            let now = scan_up(ks.insert(r, k), other, 0);
            &&& hits(ks.insert(r, k), other) == hits(ks, other)
            &&& now == if precedes(k, other) {
                was + 1
            } else {
                was
            }
            &&& precedes(k, other) ==> was >= r
            &&& !precedes(k, other) ==> was <= r && precedes(other, k)
            &&& hits(ks, other) && !precedes(k, other) ==> was < r
        },
{
    lemma_miss(ks, lo, hi, k);
    lemma_scan_up(ks, k, 0);
    let r = scan_up(ks, k, 0);
    let put = ks.insert(r, k);
    assert forall|j: int| 0 <= j < r implies precedes(#[trigger] ks[j], k) by {
        assert(follows(k, ks[j]));
    }
    assert forall|j: int| r <= j < ks.len() implies precedes(k, #[trigger] ks[j]) by {
        assert(!follows(k, ks[r]));
        assert(!precedes(ks[r], k));
        assert(!same(k, ks[r]));
        assert(precedes(k, ks[r]));
        if j > r {
            lemma_before_before(k, ks[r], ks[j]);
        }
    }
    assert forall|i: int, j: int| 0 <= i < j < put.len() implies precedes(
        #[trigger] put[i],
        #[trigger] put[j],
    ) by {
        if j < r {
            assert(put[i] == ks[i] && put[j] == ks[j]);
        } else if j == r {
            assert(put[i] == ks[i]);
        } else if i < r {
            assert(put[i] == ks[i] && put[j] == ks[j - 1]);
        } else if i == r {
            assert(put[j] == ks[j - 1]);
        } else {
            assert(put[i] == ks[i - 1] && put[j] == ks[j - 1]);
        }
    }
    assert forall|i: int| 0 <= i < put.len() implies above(lo, #[trigger] put[i]) && below(
        hi,
        put[i],
    ) by {
        if i < r {
            assert(put[i] == ks[i]);
        } else if i > r {
            assert(put[i] == ks[i - 1]);
        }
    }
    assert forall|j: int| 0 <= j < r implies precedes(#[trigger] put[j], k) by {
        assert(put[j] == ks[j]);
    }
    assert(!precedes(k, k));
    lemma_rank(put, lo, hi, k, r);
    assert(same(k, put[r]));
    if !same(other, k) {
        lemma_scan_up(ks, other, 0);
        let was = scan_up(ks, other, 0);
        assert forall|j: int| 0 <= j < was implies precedes(#[trigger] ks[j], other) by {
            assert(follows(other, ks[j]));
        }
        if was < ks.len() {
            assert(!follows(other, ks[was]));
            assert(!precedes(ks[was], other));
        }
        if precedes(k, other) {
            if was < r {
                // ks[was] is not before `other`, yet before `k`, which is before `other`.
                lemma_before_before(ks[was], k, other);
            }
            assert forall|j: int| 0 <= j < was + 1 implies precedes(#[trigger] put[j], other) by {
                if j < r {
                    assert(put[j] == ks[j]);
                } else if j > r {
                    assert(put[j] == ks[j - 1]);
                }
            }
            if was + 1 < put.len() {
                assert(put[was + 1] == ks[was]);
            }
            lemma_rank(put, lo, hi, other, was + 1);
        } else {
            assert(precedes(other, k));
            if was > r {
                // ks[r] is before `other`, yet after `k`, which is after `other`.
                assert(precedes(ks[r], other));
                lemma_before_before(other, k, ks[r]);
            }
            assert forall|j: int| 0 <= j < was implies precedes(#[trigger] put[j], other) by {
                assert(put[j] == ks[j]);
            }
            if was < r {
                assert(put[was] == ks[was]);
            } else {
                assert(put[was] == k);
                if was < ks.len() {
                    // `other` is before `k`, which is before ks[r]: no hit there.
                    lemma_before_before(other, k, ks[was]);
                }
            }
            lemma_rank(put, lo, hi, other, was);
        }
    }
}

/// The first key of the node at offset `l` of `tree` lies between `lo` and `hi`.
pub open spec fn near<K: Codec + PartialOrd>(
    tree: Seq<u8>,
    keys: Seq<u8>,
    l: int,
    lo: Option<K>,
    hi: Option<K>,
) -> bool {
    let n = node_at(tree, l)->0;
    &&& node_at(tree, l) is Some
    &&& n.len >= 1
    &&& value_at::<K>(keys, n.keys[0] as int) is Some
    &&& above(lo, key_of::<K>(keys, n, 0))
    &&& below(hi, key_of::<K>(keys, n, 0))
}

/// The tree store `after` is no shorter than `tree`, and every node that it holds
/// otherwise than `tree` does is the one at `loc`, or one whose first key lies
/// between `lo` and `hi`.
pub open spec fn changed_within<K: Codec + PartialOrd>(
    tree: Seq<u8>,
    keys: Seq<u8>,
    after: Seq<u8>,
    loc: int,
    lo: Option<K>,
    hi: Option<K>,
) -> bool {
    &&& tree.len() <= after.len()
    &&& forall|l: int|
        in_file(tree, l) && #[trigger] node_at(after, l) != node_at(tree, l) ==> l == loc
            || near::<K>(tree, keys, l, lo, hi)
}

/// What the insertion of `k`, with its value at offset `v_off`, below the node
/// at `loc` makes of the stores: the subtree is good, the search for `k` finds
/// the value, the search for any other key comes to what it came to, and no
/// node changed but the one at `loc` and nodes of the subtree.
pub open spec fn inserted<K: Codec + PartialOrd>(
    tree: Seq<u8>,
    keys: Seq<u8>,
    after: Seq<u8>,
    keys_after: Seq<u8>,
    loc: int,
    h: nat,
    lo: Option<K>,
    hi: Option<K>,
    least: int,
    k: K,
    v_off: u64,
) -> bool {
    &&& good::<K>(after, keys_after, loc, h, lo, hi, least, after.len() as int)
    &&& lookup(after, keys_after, node_at(after, loc)->0, k, h) == Lookup::Found(v_off)
    &&& forall|other: K|
        !same(other, k) ==> #[trigger] lookup(after, keys_after, node_at(after, loc)->0, other, h)
            == lookup(tree, keys, node_at(tree, loc)->0, other, h)
    &&& changed_within::<K>(tree, keys, after, loc, lo, hi)
}

/// The keys of a node that took in the key appended to the key store are the
/// keys it held with that key put in.
pub proof fn lemma_keys_put<K: Codec + PartialOrd>(
    keys: Seq<u8>,
    n: Node,
    n2: Node,
    k: K,
    i: int,
)
    requires
        is_self_delimiting::<K>(),
        reads::<K>(keys, n),
        n.len < NUM_KEYS,
        0 <= i <= n.len,
        keys.len() <= u64::MAX,
        n2.len == n.len + 1,
        n2.live_keys() == n.live_keys().insert(i, keys.len() as u64),
    ensures
        reads::<K>(keys + k.encoding(), n2),
        keys_of::<K>(keys + k.encoding(), n2) == keys_of::<K>(keys, n).insert(i, k),
{
    let after = keys + k.encoding();
    let ks = keys_of::<K>(keys, n);
    assert(after.subrange(0, keys.len() as int) =~= keys);
    lemma_appended::<K>(keys, k, 0, k);
    lemma_value_at::<K>(after, keys.len() as int, k);
    assert forall|j: int| 0 <= j < n2.len implies (#[trigger] value_at::<K>(
        after,
        n2.keys[j] as int,
    )) == Some(ks.insert(i, k)[j]) by {
        assert(n2.keys[j] == n2.live_keys()[j]);
        if j < i {
            assert(n2.keys[j] == n.live_keys()[j]);
            assert(n.keys[j] == n.live_keys()[j]);
            assert(value_at::<K>(keys, n.keys[j] as int) is Some);
            lemma_still_reads::<K>(keys, after, n.keys[j] as int);
        } else if j > i {
            assert(n2.keys[j] == n.live_keys()[j - 1]);
            assert(n.keys[j - 1] == n.live_keys()[j - 1]);
            assert(value_at::<K>(keys, n.keys[j - 1] as int) is Some);
            lemma_still_reads::<K>(keys, after, n.keys[j - 1] as int);
        }
    }
    assert(keys_of::<K>(after, n2) =~= ks.insert(i, k));
}

/// A leaf that took in a key and its value at the index where the key goes in
/// is what an insertion makes of it: see `inserted`.
pub proof fn lemma_leaf_insert<K: Codec + PartialOrd>(
    tree: Seq<u8>,
    keys: Seq<u8>,
    after: Seq<u8>,
    n: Node,
    n2: Node,
    lo: Option<K>,
    hi: Option<K>,
    least: int,
    k: K,
    v_off: u64,
)
    requires
        is_ordered_key::<K>(),
        good::<K>(tree, keys, n.loc as int, 0, lo, hi, least, tree.len() as int),
        node_at(tree, n.loc as int) == Some(n),
        above(lo, k),
        below(hi, k),
        lookup(tree, keys, n, k, 0) is Absent,
        n.len < NUM_KEYS,
        keys.len() <= u64::MAX,
        insert_index(keys, n, k, n.len as int) is Some,
        n2.live_keys() == n.live_keys().insert(
            insert_index(keys, n, k, n.len as int)->0,
            keys.len() as u64,
        ),
        n2.live_values() == n.live_values().insert(
            insert_index(keys, n, k, n.len as int)->0,
            v_off,
        ),
        n2.len == n.len + 1,
        n2.leaf,
        n2.loc == n.loc,
        after.len() == tree.len(),
        node_at(after, n.loc as int) == Some(n2),
        forall|l: int|
            in_file(tree, l) && l != n.loc ==> #[trigger] node_at(after, l) == node_at(tree, l),
    ensures
        inserted::<K>(
            tree,
            keys,
            after,
            keys + k.encoding(),
            n.loc as int,
            0,
            lo,
            hi,
            least,
            k,
            v_off,
        ),
{
    let keys_after = keys + k.encoding();
    let ks = keys_of::<K>(keys, n);
    lemma_lookup_node::<K>(tree, keys, n, k, 0);
    lemma_scan_up(ks, k, 0);
    assert(!hits(ks, k));
    lemma_miss(ks, lo, hi, k);
    lemma_scans_agree(ks, lo, hi, k);
    lemma_insert_index(keys, n, k, n.len as int);
    let r = scan_up(ks, k, 0);
    lemma_keys_put::<K>(keys, n, n2, k, r);
    let ks2 = keys_of::<K>(keys_after, n2);
    lemma_put(ks, lo, hi, k, k);
    lemma_lookup_node::<K>(after, keys_after, n2, k, 0);
    assert(n2.values[r] == n2.live_values()[r]);
    assert forall|other: K| !same(other, k) implies #[trigger] lookup(
        after,
        keys_after,
        n2,
        other,
        0,
    ) == lookup(tree, keys, n, other, 0) by {
        lemma_put(ks, lo, hi, k, other);
        lemma_lookup_node::<K>(after, keys_after, n2, other, 0);
        lemma_lookup_node::<K>(tree, keys, n, other, 0);
        lemma_scan_up(ks, other, 0);
        let was = scan_up(ks, other, 0);
        let now = scan_up(ks2, other, 0);
        if hits(ks, other) {
            assert(n.values[was] == n.live_values()[was]);
            assert(n2.values[now] == n2.live_values()[now]);
        }
    }
}

/// A subtree that stands before an offset stands before every later one.
pub proof fn lemma_good_end<K: Codec + PartialOrd>(
    tree: Seq<u8>,
    keys: Seq<u8>,
    loc: int,
    h: nat,
    lo: Option<K>,
    hi: Option<K>,
    least: int,
    end: int,
    later: int,
)
    requires
        good::<K>(tree, keys, loc, h, lo, hi, least, end),
        end <= later,
    ensures
        good::<K>(tree, keys, loc, h, lo, hi, least, later),
    decreases h,
{
    let n = node_at(tree, loc)->0;
    let ks = keys_of::<K>(keys, n);
    if h > 0 {
        assert forall|i: int| 0 <= i <= n.len implies good::<K>(
            tree,
            keys,
            #[trigger] n.children[i] as int,
            (h - 1) as nat,
            lo_of(ks, lo, i),
            hi_of(ks, hi, i),
            crate::node::T - 1,
            later,
        ) by {
            lemma_good_end::<K>(
                tree,
                keys,
                n.children[i] as int,
                (h - 1) as nat,
                lo_of(ks, lo, i),
                hi_of(ks, hi, i),
                crate::node::T - 1,
                end,
                later,
            );
        }
    }
}

/// The nodes `lower` and `upper` are the halves of the full node `y`: the keys
/// below its median with their values and children, and those above it.
pub open spec fn halved(y: Node, lower: Node, upper: Node) -> bool {
    &&& y.is_full()
    &&& lower.len == T - 1
    &&& upper.len == T - 1
    &&& lower.leaf == y.leaf
    &&& upper.leaf == y.leaf
    &&& lower.live_keys() == y.keys@.take(T - 1)
    &&& lower.live_values() == y.values@.take(T - 1)
    &&& upper.live_keys() == y.keys@.subrange(T as int, 2 * T - 1)
    &&& upper.live_values() == y.values@.subrange(T as int, 2 * T - 1)
    &&& !y.leaf ==> lower.live_children() == y.children@.take(T as int)
    &&& !y.leaf ==> upper.live_children() == y.children@.subrange(T as int, 2 * T)
}

/// The keys of the halves of a node are the halves of its keys.
pub proof fn lemma_halved_keys<K: Codec + PartialOrd>(
    keys: Seq<u8>,
    y: Node,
    lower: Node,
    upper: Node,
)
    requires
        reads::<K>(keys, y),
        halved(y, lower, upper),
    ensures
        reads::<K>(keys, lower),
        reads::<K>(keys, upper),
        keys_of::<K>(keys, lower) == keys_of::<K>(keys, y).take(T - 1),
        keys_of::<K>(keys, upper) == keys_of::<K>(keys, y).subrange(T as int, 2 * T - 1),
        forall|j: int| 0 <= j < T - 1 ==> lower.values[j] == y.values[j],
        forall|j: int| 0 <= j < T - 1 ==> upper.values[j] == y.values[j + T],
        !y.leaf ==> forall|j: int| 0 <= j <= T - 1 ==> lower.children[j] == y.children[j],
        !y.leaf ==> forall|j: int| 0 <= j <= T - 1 ==> upper.children[j] == y.children[j + T],
{
    assert forall|j: int| 0 <= j < T - 1 implies lower.keys[j] == y.keys[j] && lower.values[j]
        == y.values[j] by {
        assert(lower.keys[j] == lower.live_keys()[j]);
        assert(lower.values[j] == lower.live_values()[j]);
    }
    assert forall|j: int| 0 <= j < T - 1 implies upper.keys[j] == y.keys[j + T] && upper.values[j]
        == y.values[j + T] by {
        assert(upper.keys[j] == upper.live_keys()[j]);
        assert(upper.values[j] == upper.live_values()[j]);
    }
    assert forall|j: int| 0 <= j < lower.len implies (#[trigger] value_at::<K>(
        keys,
        lower.keys[j] as int,
    )) is Some by {
        assert(value_at::<K>(keys, y.keys[j] as int) is Some);
    }
    assert forall|j: int| 0 <= j < upper.len implies (#[trigger] value_at::<K>(
        keys,
        upper.keys[j] as int,
    )) is Some by {
        assert(value_at::<K>(keys, y.keys[j + T] as int) is Some);
    }
    assert(keys_of::<K>(keys, lower) =~= keys_of::<K>(keys, y).take(T - 1));
    assert(keys_of::<K>(keys, upper) =~= keys_of::<K>(keys, y).subrange(T as int, 2 * T - 1));
    if !y.leaf {
        assert forall|j: int| 0 <= j <= T - 1 implies lower.children[j] == y.children[j] by {
            assert(lower.children[j] == lower.live_children()[j]);
        }
        assert forall|j: int| 0 <= j <= T - 1 implies upper.children[j] == y.children[j + T] by {
            assert(upper.children[j] == upper.live_children()[j]);
        }
    }
}

/// The first key of a good node is far from the bounds of each of its children.
pub proof fn lemma_far_from_children<K: Codec + PartialOrd>(
    tree: Seq<u8>,
    keys: Seq<u8>,
    n: Node,
    loc: int,
    lo: Option<K>,
    hi: Option<K>,
    i: int,
    end: int,
)
    requires
        is_total_order::<K>(),
        node_at(tree, loc) == Some(n),
        n.len >= 1,
        reads::<K>(keys, n),
        sorted_within(keys_of::<K>(keys, n), lo, hi),
        0 <= i <= n.len,
    ensures
        far::<K>(
            tree,
            keys,
            loc,
            lo_of(keys_of::<K>(keys, n), lo, i),
            hi_of(keys_of::<K>(keys, n), hi, i),
            end,
        ),
{
    let ks = keys_of::<K>(keys, n);
    assert(value_at::<K>(keys, n.keys[0] as int) is Some);
    assert(ks[0] == key_of::<K>(keys, n, 0));
    assert(!precedes(ks[0], ks[0]));
    if i >= 2 {
        assert(precedes(ks[0], ks[i - 1]));
    }
}

/// The halves of a good full node are good, between the bounds of the node and
/// its median, and a search in the node goes on in the half on the key's side of
/// the median, or stops at the median.
pub proof fn lemma_halves<K: Codec + PartialOrd>(
    tree: Seq<u8>,
    keys: Seq<u8>,
    after: Seq<u8>,
    y_loc: int,
    z_loc: int,
    lower: Node,
    upper: Node,
    h: nat,
    lo: Option<K>,
    hi: Option<K>,
    end: int,
    later: int,
)
    requires
        is_ordered_key::<K>(),
        good::<K>(tree, keys, y_loc, h, lo, hi, T - 1, end),
        halved(node_at(tree, y_loc)->0, lower, upper),
        tree.len() <= after.len(),
        end <= later,
        node_at(after, y_loc) == Some(lower),
        lower.loc == y_loc,
        in_file(after, z_loc),
        node_at(after, z_loc) == Some(upper),
        upper.loc == z_loc,
        z_loc + NODE_SIZE <= later,
        forall|l: int|
            in_file(tree, l) && #[trigger] node_at(after, l) != node_at(tree, l) ==> l == y_loc
                || far::<K>(tree, keys, l, lo, hi, end),
    ensures
        above(lo, keys_of::<K>(keys, node_at(tree, y_loc)->0)[T - 1]),
        below(hi, keys_of::<K>(keys, node_at(tree, y_loc)->0)[T - 1]),
        good::<K>(
            after,
            keys,
            y_loc,
            h,
            lo,
            Some(keys_of::<K>(keys, node_at(tree, y_loc)->0)[T - 1]),
            T - 1,
            later,
        ),
        good::<K>(
            after,
            keys,
            z_loc,
            h,
            Some(keys_of::<K>(keys, node_at(tree, y_loc)->0)[T - 1]),
            hi,
            T - 1,
            later,
        ),
        forall|k: K|
            precedes(k, keys_of::<K>(keys, node_at(tree, y_loc)->0)[T - 1]) ==> #[trigger] lookup(
                after,
                keys,
                lower,
                k,
                h,
            ) == lookup(tree, keys, node_at(tree, y_loc)->0, k, h),
        forall|k: K|
            precedes(keys_of::<K>(keys, node_at(tree, y_loc)->0)[T - 1], k) ==> #[trigger] lookup(
                after,
                keys,
                upper,
                k,
                h,
            ) == lookup(tree, keys, node_at(tree, y_loc)->0, k, h),
        forall|k: K|
            same(k, keys_of::<K>(keys, node_at(tree, y_loc)->0)[T - 1]) ==> #[trigger] lookup(
                tree,
                keys,
                node_at(tree, y_loc)->0,
                k,
                h,
            ) == Lookup::Found(node_at(tree, y_loc)->0.values[T - 1]),
{
    let y = node_at(tree, y_loc)->0;
    let ky = keys_of::<K>(keys, y);
    let kl = keys_of::<K>(keys, lower);
    let ku = keys_of::<K>(keys, upper);
    let m = ky[T - 1];
    lemma_halved_keys::<K>(keys, y, lower, upper);
    assert(above(lo, m) && below(hi, m));
    // The children of the node are the children of its halves, as they were.
    if h > 0 {
        assert forall|j: int| 0 <= j <= y.len implies good::<K>(
            after,
            keys,
            #[trigger] y.children[j] as int,
            (h - 1) as nat,
            lo_of(ky, lo, j),
            hi_of(ky, hi, j),
            T - 1,
            later,
        ) && node_at(after, y.children[j] as int) == node_at(tree, y.children[j] as int)
            && (forall|k: K| #[trigger]
            lookup(after, keys, node_at(tree, y.children[j] as int)->0, k, (h - 1) as nat)
                == lookup(tree, keys, node_at(tree, y.children[j] as int)->0, k, (h - 1) as nat)) by {
            let a = lo_of(ky, lo, j);
            let b = hi_of(ky, hi, j);
            assert forall|l: int|
                in_file(tree, l) && #[trigger] node_at(after, l) != node_at(
                    tree,
                    l,
                ) implies far::<K>(tree, keys, l, a, b, end) by {
                if l == y_loc {
                    lemma_far_from_children::<K>(tree, keys, y, y_loc, lo, hi, j, end);
                } else {
                    lemma_far_narrow::<K>(tree, keys, l, lo, hi, a, b, end);
                }
            }
            assert(keys.subrange(0, keys.len() as int) =~= keys);
            lemma_frame::<K>(
                tree,
                keys,
                after,
                keys,
                y.children[j] as int,
                (h - 1) as nat,
                a,
                b,
                T - 1,
                end,
            );
            lemma_good_end::<K>(
                after,
                keys,
                y.children[j] as int,
                (h - 1) as nat,
                a,
                b,
                T - 1,
                end,
                later,
            );
        }
    }
    assert(sorted_within(kl, lo, Some(m))) by {
        assert forall|i: int, j: int| 0 <= i < j < kl.len() implies precedes(
            #[trigger] kl[i],
            #[trigger] kl[j],
        ) by {
            assert(kl[i] == ky[i] && kl[j] == ky[j]);
        }
        assert forall|i: int| 0 <= i < kl.len() implies above(lo, #[trigger] kl[i]) && below(
            Some(m),
            kl[i],
        ) by {
            assert(kl[i] == ky[i]);
        }
    }
    assert(sorted_within(ku, Some(m), hi)) by {
        assert forall|i: int, j: int| 0 <= i < j < ku.len() implies precedes(
            #[trigger] ku[i],
            #[trigger] ku[j],
        ) by {
            assert(ku[i] == ky[i + T] && ku[j] == ky[j + T]);
        }
        assert forall|i: int| 0 <= i < ku.len() implies above(Some(m), #[trigger] ku[i])
            && below(hi, ku[i]) by {
            assert(ku[i] == ky[i + T]);
        }
    }
    if h > 0 {
        assert forall|j: int| 0 <= j <= lower.len implies good::<K>(
            after,
            keys,
            #[trigger] lower.children[j] as int,
            (h - 1) as nat,
            lo_of(kl, lo, j),
            hi_of(kl, Some(m), j),
            T - 1,
            later,
        ) by {
            assert(lower.children[j] == y.children[j]);
            if j > 0 {
                assert(kl[j - 1] == ky[j - 1]);
            }
            if j < lower.len {
                assert(kl[j] == ky[j]);
            }
        }
        assert forall|j: int| 0 <= j <= upper.len implies good::<K>(
            after,
            keys,
            #[trigger] upper.children[j] as int,
            (h - 1) as nat,
            lo_of(ku, Some(m), j),
            hi_of(ku, hi, j),
            T - 1,
            later,
        ) by {
            assert(upper.children[j] == y.children[j + T]);
            if j > 0 {
                assert(ku[j - 1] == ky[j - 1 + T]);
            }
            if j < upper.len {
                assert(ku[j] == ky[j + T]);
            }
        }
    }
    assert forall|k: K| precedes(k, m) implies #[trigger] lookup(after, keys, lower, k, h)
        == lookup(tree, keys, y, k, h) by {
        lemma_lookup_node::<K>(after, keys, lower, k, h);
        lemma_lookup_node::<K>(tree, keys, y, k, h);
        lemma_scan_up(ky, k, 0);
        let r = scan_up(ky, k, 0);
        if r > T - 1 {
            assert(follows(k, ky[T - 1]));
        }
        assert forall|j: int| 0 <= j < r implies precedes(#[trigger] kl[j], k) by {
            assert(follows(k, ky[j]));
            assert(kl[j] == ky[j]);
        }
        if r < T - 1 {
            assert(kl[r] == ky[r]);
            assert(!follows(k, ky[r]));
        }
        lemma_rank(kl, lo, Some(m), k, r);
        if r < T - 1 {
            assert(lower.values[r] == y.values[r]);
        }
        if h > 0 {
            assert(lower.children[r] == y.children[r]);
        }
    }
    assert forall|k: K| precedes(m, k) implies #[trigger] lookup(after, keys, upper, k, h)
        == lookup(tree, keys, y, k, h) by {
        lemma_lookup_node::<K>(after, keys, upper, k, h);
        lemma_lookup_node::<K>(tree, keys, y, k, h);
        lemma_scan_up(ky, k, 0);
        let r = scan_up(ky, k, 0);
        if r <= T - 1 {
            assert forall|j: int| 0 <= j < T implies precedes(#[trigger] ky[j], k) by {
                if j < T - 1 {
                    lemma_before_before(ky[j], m, k);
                }
            }
            assert(!follows(k, ky[r]));
        }
        assert forall|j: int| 0 <= j < r - T implies precedes(#[trigger] ku[j], k) by {
            assert(follows(k, ky[j + T]));
            assert(ku[j] == ky[j + T]);
        }
        if r < 2 * T - 1 {
            assert(ku[r - T] == ky[r]);
            assert(!follows(k, ky[r]));
        }
        lemma_rank(ku, Some(m), hi, k, r - T);
        if r < 2 * T - 1 {
            assert(upper.values[r - T] == y.values[r]);
        }
        if h > 0 {
            assert(upper.children[r - T] == y.children[r]);
        }
    }
    assert forall|k: K| same(k, m) implies #[trigger] lookup(tree, keys, y, k, h)
        == Lookup::Found(y.values[T - 1]) by {
        lemma_lookup_node::<K>(tree, keys, y, k, h);
        assert forall|j: int| 0 <= j < T - 1 implies precedes(#[trigger] ky[j], k) by {
            lemma_before_not_after(ky[j], m, k);
        }
        lemma_rank(ky, lo, hi, k, T - 1);
    }
}

/// The node `x` at offset `x_loc` of `tree` is an inner node `h` levels above the
/// leaves whose keys ascend between `lo` and `hi` and whose children are good,
/// each between its bounds. It need not hold a key: a new root holds none until
/// its child is split.
pub open spec fn good_parent<K: Codec + PartialOrd>(
    tree: Seq<u8>,
    keys: Seq<u8>,
    x: Node,
    x_loc: int,
    h: nat,
    lo: Option<K>,
    hi: Option<K>,
    end: int,
) -> bool {
    &&& h >= 1
    &&& in_file(tree, x_loc)
    &&& node_at(tree, x_loc) == Some(x)
    &&& x.loc == x_loc
    &&& !x.leaf
    &&& reads::<K>(keys, x)
    &&& sorted_within(keys_of::<K>(keys, x), lo, hi)
    &&& x.len >= 1 || x_loc + NODE_SIZE > end
    &&& forall|j: int|
        0 <= j <= x.len ==> good::<K>(
            tree,
            keys,
            #[trigger] x.children[j] as int,
            (h - 1) as nat,
            lo_of(keys_of::<K>(keys, x), lo, j),
            hi_of(keys_of::<K>(keys, x), hi, j),
            T - 1,
            end,
        )
}

/// The children of a node but the one that is split are, after the split, what
/// they were.
pub proof fn lemma_split_siblings<K: Codec + PartialOrd>(
    tree: Seq<u8>,
    keys: Seq<u8>,
    after: Seq<u8>,
    x: Node,
    x_loc: int,
    h: nat,
    lo: Option<K>,
    hi: Option<K>,
    end: int,
    i: int,
    j: int,
)
    requires
        is_ordered_key::<K>(),
        good_parent::<K>(tree, keys, x, x_loc, h, lo, hi, end),
        0 <= i <= x.len,
        0 <= j <= x.len,
        i != j,
        tree.len() <= after.len(),
        end <= after.len(),
        forall|l: int|
            in_file(tree, l) && #[trigger] node_at(after, l) != node_at(tree, l) ==> l == x_loc
                || l == x.children[i],
    ensures
        good::<K>(
            after,
            keys,
            x.children[j] as int,
            (h - 1) as nat,
            lo_of(keys_of::<K>(keys, x), lo, j),
            hi_of(keys_of::<K>(keys, x), hi, j),
            T - 1,
            after.len() as int,
        ),
        node_at(after, x.children[j] as int) == node_at(tree, x.children[j] as int),
        forall|k: K| #[trigger]
            lookup(after, keys, node_at(tree, x.children[j] as int)->0, k, (h - 1) as nat)
                == lookup(tree, keys, node_at(tree, x.children[j] as int)->0, k, (h - 1) as nat),
{
    let kx = keys_of::<K>(keys, x);
    let a = lo_of(kx, lo, j);
    let b = hi_of(kx, hi, j);
    let y_loc = x.children[i] as int;
    let y = node_at(tree, y_loc)->0;
    let ky = keys_of::<K>(keys, y);
    assert(good::<K>(tree, keys, y_loc, (h - 1) as nat, lo_of(kx, lo, i), hi_of(kx, hi, i), T - 1, end));
    assert forall|l: int|
        in_file(tree, l) && #[trigger] node_at(after, l) != node_at(tree, l) implies far::<K>(
        tree,
        keys,
        l,
        a,
        b,
        end,
    ) by {
        if l == x_loc {
            if x.len >= 1 {
                lemma_far_from_children::<K>(tree, keys, x, x_loc, lo, hi, j, end);
            }
        } else {
            // The first key of the child that is split lies between its bounds,
            // and so beyond those of every other child.
            assert(value_at::<K>(keys, y.keys[0] as int) is Some);
            let k0 = ky[0];
            assert(k0 == key_of::<K>(keys, y, 0));
            assert(above(lo_of(kx, lo, i), k0) && below(hi_of(kx, hi, i), k0));
            if j < i {
                assert(precedes(kx[i - 1], k0));
                if precedes(k0, kx[j]) {
                    if j < i - 1 {
                        lemma_before_before(kx[j], kx[i - 1], k0);
                    }
                }
            } else {
                assert(precedes(k0, kx[i]));
                if precedes(kx[j - 1], k0) {
                    if j - 1 > i {
                        lemma_before_before(k0, kx[i], kx[j - 1]);
                    }
                }
            }
        }
    }
    assert(keys.subrange(0, keys.len() as int) =~= keys);
    lemma_frame::<K>(tree, keys, after, keys, x.children[j] as int, (h - 1) as nat, a, b, T - 1, end);
    lemma_good_end::<K>(
        after,
        keys,
        x.children[j] as int,
        (h - 1) as nat,
        a,
        b,
        T - 1,
        end,
        after.len() as int,
    );
}

/// The keys of a node that took in the median of its child are the keys it held
/// with the median put in, and the median goes in at the index of the child.
pub proof fn lemma_median_put<K: Codec + PartialOrd>(
    tree: Seq<u8>,
    keys: Seq<u8>,
    x: Node,
    x2: Node,
    x_loc: int,
    h: nat,
    lo: Option<K>,
    hi: Option<K>,
    end: int,
    i: int,
)
    requires
        is_ordered_key::<K>(),
        good_parent::<K>(tree, keys, x, x_loc, h, lo, hi, end),
        0 <= i <= x.len,
        x.len < NUM_KEYS,
        node_at(tree, x.children[i] as int)->0.is_full(),
        x2.len == x.len + 1,
        x2.live_keys() == x.live_keys().insert(i, node_at(tree, x.children[i] as int)->0.keys[T - 1]),
    ensures
        reads::<K>(keys, x2),
        keys_of::<K>(keys, x2) == keys_of::<K>(keys, x).insert(
            i,
            keys_of::<K>(keys, node_at(tree, x.children[i] as int)->0)[T - 1],
        ),
        scan_up(
            keys_of::<K>(keys, x),
            keys_of::<K>(keys, node_at(tree, x.children[i] as int)->0)[T - 1],
            0,
        ) == i,
        !hits(
            keys_of::<K>(keys, x),
            keys_of::<K>(keys, node_at(tree, x.children[i] as int)->0)[T - 1],
        ),
        above(lo, keys_of::<K>(keys, node_at(tree, x.children[i] as int)->0)[T - 1]),
        below(hi, keys_of::<K>(keys, node_at(tree, x.children[i] as int)->0)[T - 1]),
{
    let kx = keys_of::<K>(keys, x);
    let y = node_at(tree, x.children[i] as int)->0;
    let ky = keys_of::<K>(keys, y);
    let m = ky[T - 1];
    assert(good::<K>(
        tree,
        keys,
        x.children[i] as int,
        (h - 1) as nat,
        lo_of(kx, lo, i),
        hi_of(kx, hi, i),
        T - 1,
        end,
    ));
    assert(value_at::<K>(keys, y.keys[T - 1] as int) is Some);
    assert(m == key_of::<K>(keys, y, T - 1));
    assert(above(lo_of(kx, lo, i), m) && below(hi_of(kx, hi, i), m));
    assert forall|j: int| 0 <= j < i implies precedes(#[trigger] kx[j], m) by {
        if j < i - 1 {
            lemma_before_before(kx[j], kx[i - 1], m);
        }
    }
    if i > 0 {
        if lo is Some {
            lemma_before_before(lo->0, kx[i - 1], m);
        }
    }
    if i < x.len {
        if hi is Some {
            lemma_before_before(m, kx[i], hi->0);
        }
    }
    lemma_rank(kx, lo, hi, m, i);
    assert forall|j: int| 0 <= j < x2.len implies (#[trigger] value_at::<K>(
        keys,
        x2.keys[j] as int,
    )) == Some(kx.insert(i, m)[j]) by {
        assert(x2.keys[j] == x2.live_keys()[j]);
        if j < i {
            assert(x.keys[j] == x.live_keys()[j]);
            assert(value_at::<K>(keys, x.keys[j] as int) is Some);
        } else if j > i {
            assert(x.keys[j - 1] == x.live_keys()[j - 1]);
            assert(value_at::<K>(keys, x.keys[j - 1] as int) is Some);
        }
    }
    assert(keys_of::<K>(keys, x2) =~= kx.insert(i, m));
}

/// What a search comes to at a node before the child of it is split: at a node
/// without keys, which is a new root, what it comes to at its one child.
pub open spec fn lookup_before_split<K: Codec + PartialOrd>(
    tree: Seq<u8>,
    keys: Seq<u8>,
    x: Node,
    k: K,
    h: nat,
) -> Lookup {
    if x.len == 0 {
        lookup(tree, keys, node_at(tree, x.children[0] as int)->0, k, (h - 1) as nat)
    } else {
        lookup(tree, keys, x, k, h)
    }
}

/// What is known of a node `x2` that took in the median of the child at index `i`
/// of the node `x`, and of the children of both: the keys, values and children
/// of `x2` are those of `x` with the median and the new child put in, the halves
/// of the child are good, a search in the child goes on in one of them, and
/// every other child is as it was.
pub open spec fn split_view<K: Codec + PartialOrd>(
    tree: Seq<u8>,
    keys: Seq<u8>,
    after: Seq<u8>,
    x: Node,
    x2: Node,
    h: nat,
    lo: Option<K>,
    hi: Option<K>,
    i: int,
) -> bool {
    let kx = keys_of::<K>(keys, x);
    let kx2 = keys_of::<K>(keys, x2);
    let y_loc = x.children[i] as int;
    let z_loc = tree.len() as int;
    let y = node_at(tree, y_loc)->0;
    let lower = node_at(after, y_loc)->0;
    let upper = node_at(after, z_loc)->0;
    let m = keys_of::<K>(keys, y)[T - 1];
    let later = after.len() as int;
    &&& x2.len == x.len + 1
    &&& reads::<K>(keys, x2)
    &&& kx2 == kx.insert(i, m)
    &&& scan_up(kx, m, 0) == i
    &&& !hits(kx, m)
    &&& above(lo, m)
    &&& below(hi, m)
    &&& node_at(tree, y_loc) == Some(y)
    &&& on_grid(y_loc)
    &&& y.loc == y_loc
    &&& node_at(after, y_loc) == Some(lower)
    &&& node_at(after, z_loc) == Some(upper)
    &&& on_grid(z_loc)
    &&& lower.loc == y_loc
    &&& upper.loc == z_loc
    &&& forall|j: int|
        0 <= j <= x2.len ==> #[trigger] x2.children[j] == if j <= i {
            x.children[j]
        } else if j == i + 1 {
            z_loc as u64
        } else {
            x.children[j - 1]
        }
    &&& forall|j: int|
        0 <= j < x2.len ==> #[trigger] x2.values[j] == if j < i {
            x.values[j]
        } else if j == i {
            y.values[T - 1]
        } else {
            x.values[j - 1]
        }
    &&& good::<K>(after, keys, y_loc, (h - 1) as nat, lo_of(kx, lo, i), Some(m), T - 1, later)
    &&& good::<K>(after, keys, z_loc, (h - 1) as nat, Some(m), hi_of(kx, hi, i), T - 1, later)
    &&& forall|k: K|
        precedes(k, m) ==> #[trigger] lookup(after, keys, lower, k, (h - 1) as nat) == lookup(
            tree,
            keys,
            y,
            k,
            (h - 1) as nat,
        )
    &&& forall|k: K|
        precedes(m, k) ==> #[trigger] lookup(after, keys, upper, k, (h - 1) as nat) == lookup(
            tree,
            keys,
            y,
            k,
            (h - 1) as nat,
        )
    &&& forall|k: K|
        same(k, m) ==> #[trigger] lookup(tree, keys, y, k, (h - 1) as nat) == Lookup::Found(
            y.values[T - 1],
        )
    &&& forall|j: int|
        0 <= j <= x.len && j != i ==> good::<K>(
            after,
            keys,
            #[trigger] x.children[j] as int,
            (h - 1) as nat,
            lo_of(kx, lo, j),
            hi_of(kx, hi, j),
            T - 1,
            later,
        ) && node_at(after, x.children[j] as int) == node_at(tree, x.children[j] as int)
            && on_grid(x.children[j] as int) && node_at(tree, x.children[j] as int) is Some
            && node_at(tree, x.children[j] as int)->0.loc == x.children[j]
    &&& forall|j: int, k: K|
        0 <= j <= x.len && j != i ==> #[trigger] lookup(
            after,
            keys,
            node_at(tree, x.children[j] as int)->0,
            k,
            (h - 1) as nat,
        ) == lookup(tree, keys, node_at(tree, x.children[j] as int)->0, k, (h - 1) as nat)
}

/// After the split of a child, what `split_view` says holds.
pub proof fn lemma_split_view<K: Codec + PartialOrd>(
    tree: Seq<u8>,
    keys: Seq<u8>,
    after: Seq<u8>,
    x: Node,
    x2: Node,
    x_loc: int,
    h: nat,
    lo: Option<K>,
    hi: Option<K>,
    end: int,
    i: int,
)
    requires
        is_ordered_key::<K>(),
        good_parent::<K>(tree, keys, x, x_loc, h, lo, hi, end),
        end <= tree.len(),
        on_grid(tree.len() as int),
        x.len < NUM_KEYS,
        0 <= i <= x.len,
        split_done(tree, after, x, x2, i),
    ensures
        split_view::<K>(tree, keys, after, x, x2, h, lo, hi, i),
{
    let kx = keys_of::<K>(keys, x);
    let y_loc = x.children[i] as int;
    let z_loc = tree.len() as int;
    let y = node_at(tree, y_loc)->0;
    let lower = node_at(after, y_loc)->0;
    let upper = node_at(after, z_loc)->0;
    let lo_i = lo_of(kx, lo, i);
    let hi_i = hi_of(kx, hi, i);
    let later = after.len() as int;
    assert(good::<K>(tree, keys, y_loc, (h - 1) as nat, lo_i, hi_i, T - 1, end));
    assert(halved(y, lower, upper));
    assert forall|l: int|
        in_file(tree, l) && #[trigger] node_at(after, l) != node_at(tree, l) implies l == y_loc
        || far::<K>(tree, keys, l, lo_i, hi_i, end) by {
        if l != y_loc {
            assert(l == x_loc);
            if x.len >= 1 {
                lemma_far_from_children::<K>(tree, keys, x, x_loc, lo, hi, i, end);
            }
        }
    }
    lemma_halves::<K>(
        tree,
        keys,
        after,
        y_loc,
        z_loc,
        lower,
        upper,
        (h - 1) as nat,
        lo_i,
        hi_i,
        end,
        later,
    );
    lemma_median_put::<K>(tree, keys, x, x2, x_loc, h, lo, hi, end, i);
    assert forall|j: int| 0 <= j <= x2.len implies #[trigger] x2.children[j] == if j <= i {
        x.children[j]
    } else if j == i + 1 {
        z_loc as u64
    } else {
        x.children[j - 1]
    } by {
        assert(x2.children[j] == x2.live_children()[j]);
        if j <= i {
            assert(x.children[j] == x.live_children()[j]);
        } else if j > i + 1 {
            assert(x.children[j - 1] == x.live_children()[j - 1]);
        }
    }
    assert forall|j: int| 0 <= j < x2.len implies #[trigger] x2.values[j] == if j < i {
        x.values[j]
    } else if j == i {
        y.values[T - 1]
    } else {
        x.values[j - 1]
    } by {
        assert(x2.values[j] == x2.live_values()[j]);
        if j < i {
            assert(x.values[j] == x.live_values()[j]);
        } else if j > i {
            assert(x.values[j - 1] == x.live_values()[j - 1]);
        }
    }
    assert forall|j: int| 0 <= j <= x.len && j != i implies good::<K>(
        after,
        keys,
        #[trigger] x.children[j] as int,
        (h - 1) as nat,
        lo_of(kx, lo, j),
        hi_of(kx, hi, j),
        T - 1,
        later,
    ) && node_at(after, x.children[j] as int) == node_at(tree, x.children[j] as int) && on_grid(
        x.children[j] as int,
    ) && node_at(tree, x.children[j] as int) is Some && node_at(
        tree,
        x.children[j] as int,
    )->0.loc == x.children[j] by {
        lemma_split_siblings::<K>(tree, keys, after, x, x_loc, h, lo, hi, end, i, j);
    }
    assert forall|j: int, k: K| 0 <= j <= x.len && j != i implies #[trigger] lookup(
        after,
        keys,
        node_at(tree, x.children[j] as int)->0,
        k,
        (h - 1) as nat,
    ) == lookup(tree, keys, node_at(tree, x.children[j] as int)->0, k, (h - 1) as nat) by {
        lemma_split_siblings::<K>(tree, keys, after, x, x_loc, h, lo, hi, end, i, j);
    }
}

/// After the split of a child, the children of the node are good.
pub proof fn lemma_split_children<K: Codec + PartialOrd>(
    tree: Seq<u8>,
    keys: Seq<u8>,
    after: Seq<u8>,
    x: Node,
    x2: Node,
    h: nat,
    lo: Option<K>,
    hi: Option<K>,
    i: int,
    j: int,
)
    requires
        is_ordered_key::<K>(),
        h >= 1,
        0 <= i <= x.len,
        0 <= j <= x2.len,
        sorted_within(keys_of::<K>(keys, x), lo, hi),
        split_view::<K>(tree, keys, after, x, x2, h, lo, hi, i),
    ensures
        good::<K>(
            after,
            keys,
            x2.children[j] as int,
            (h - 1) as nat,
            lo_of(keys_of::<K>(keys, x2), lo, j),
            hi_of(keys_of::<K>(keys, x2), hi, j),
            T - 1,
            after.len() as int,
        ),
{
    let kx = keys_of::<K>(keys, x);
    let kx2 = keys_of::<K>(keys, x2);
    let m = keys_of::<K>(keys, node_at(tree, x.children[i] as int)->0)[T - 1];
    assert(kx2 == kx.insert(i, m));
    if j < i {
        assert(x2.children[j] == x.children[j]);
        assert(kx2[j] == kx[j]);
        if j > 0 {
            assert(kx2[j - 1] == kx[j - 1]);
        }
    } else if j == i {
        assert(x2.children[j] == x.children[i]);
        assert(kx2[i] == m);
        if i > 0 {
            assert(kx2[i - 1] == kx[i - 1]);
        }
    } else if j == i + 1 {
        assert(x2.children[j] == tree.len() as u64);
        assert(kx2[i] == m);
        if i + 1 < kx2.len() {
            assert(kx2[i + 1] == kx[i]);
        }
    } else {
        assert(x2.children[j] == x.children[j - 1]);
        assert(kx2[j - 1] == kx[j - 2]);
        if j < kx2.len() {
            assert(kx2[j] == kx[j - 1]);
        }
    }
}

/// After the split of a child, a search at the node comes to what it came to.
pub proof fn lemma_split_lookup<K: Codec + PartialOrd>(
    tree: Seq<u8>,
    keys: Seq<u8>,
    after: Seq<u8>,
    x: Node,
    x2: Node,
    h: nat,
    lo: Option<K>,
    hi: Option<K>,
    i: int,
    k: K,
)
    requires
        is_ordered_key::<K>(),
        h >= 1,
        0 <= i <= x.len,
        !x.leaf,
        !x2.leaf,
        reads::<K>(keys, x),
        sorted_within(keys_of::<K>(keys, x), lo, hi),
        split_view::<K>(tree, keys, after, x, x2, h, lo, hi, i),
    ensures
        lookup(after, keys, x2, k, h) == lookup_before_split(tree, keys, x, k, h),
{
    let kx = keys_of::<K>(keys, x);
    let kx2 = keys_of::<K>(keys, x2);
    let y_loc = x.children[i] as int;
    let z_loc = tree.len() as int;
    let y = node_at(tree, y_loc)->0;
    let lower = node_at(after, y_loc)->0;
    let upper = node_at(after, z_loc)->0;
    let m = keys_of::<K>(keys, y)[T - 1];
    assert(kx2 == kx.insert(i, m));
    lemma_put(kx, lo, hi, m, m);
    lemma_lookup_node::<K>(after, keys, x2, k, h);
    lemma_scan_up(kx, k, 0);
    lemma_scan_up(kx2, k, 0);
    let was = scan_up(kx, k, 0);
    let now = scan_up(kx2, k, 0);
    if x.len > 0 {
        lemma_lookup_node::<K>(tree, keys, x, k, h);
    }
    if same(k, m) {
        assert forall|j: int| 0 <= j < i implies precedes(#[trigger] kx2[j], k) by {
            assert(kx2[j] == kx[j]);
            lemma_before_not_after(kx[j], m, k);
        }
        assert(kx2[i] == m);
        lemma_rank(kx2, lo, hi, k, i);
        assert forall|j: int| 0 <= j < i implies precedes(#[trigger] kx[j], k) by {
            lemma_before_not_after(kx[j], m, k);
        }
        if i < x.len {
            lemma_not_after_before(k, m, kx[i]);
        }
        lemma_rank(kx, lo, hi, k, i);
        assert(x2.values[i] == y.values[T - 1]);
        assert(lookup(tree, keys, y, k, (h - 1) as nat) == Lookup::Found(y.values[T - 1]));
    } else {
        lemma_put(kx, lo, hi, m, k);
        if precedes(m, k) {
            assert(now == was + 1);
            if hits(kx, k) {
                assert(x2.values[now] == x.values[was]);
            } else if was > i {
                assert(x2.children[was + 1] == x.children[was]);
            } else {
                assert(x2.children[i + 1] == z_loc as u64);
                assert(lookup(after, keys, upper, k, (h - 1) as nat) == lookup(
                    tree,
                    keys,
                    y,
                    k,
                    (h - 1) as nat,
                ));
            }
        } else {
            assert(now == was);
            if hits(kx, k) {
                assert(x2.values[now] == x.values[was]);
            } else if was < i {
                assert(x2.children[was] == x.children[was]);
            } else {
                assert(x2.children[i] == x.children[i]);
                assert(lookup(after, keys, lower, k, (h - 1) as nat) == lookup(
                    tree,
                    keys,
                    y,
                    k,
                    (h - 1) as nat,
                ));
            }
        }
    }
}

/// After the split of a child, a node with good children is a node with good
/// children, and every search at it comes to what it came to.
pub proof fn lemma_split<K: Codec + PartialOrd>(
    tree: Seq<u8>,
    keys: Seq<u8>,
    after: Seq<u8>,
    x: Node,
    x2: Node,
    x_loc: int,
    h: nat,
    lo: Option<K>,
    hi: Option<K>,
    end: int,
    i: int,
)
    requires
        is_ordered_key::<K>(),
        good_parent::<K>(tree, keys, x, x_loc, h, lo, hi, end),
        end <= tree.len(),
        on_grid(tree.len() as int),
        x.len < NUM_KEYS,
        0 <= i <= x.len,
        split_done(tree, after, x, x2, i),
    ensures
        good_parent::<K>(after, keys, x2, x_loc, h, lo, hi, after.len() as int),
        x2.len >= 1,
        forall|k: K| #[trigger]
            lookup(after, keys, x2, k, h) == lookup_before_split(tree, keys, x, k, h),
{
    lemma_split_view::<K>(tree, keys, after, x, x2, x_loc, h, lo, hi, end, i);
    let kx = keys_of::<K>(keys, x);
    let kx2 = keys_of::<K>(keys, x2);
    let m = keys_of::<K>(keys, node_at(tree, x.children[i] as int)->0)[T - 1];
    lemma_put(kx, lo, hi, m, m);
    assert forall|j: int| 0 <= j <= x2.len implies good::<K>(
        after,
        keys,
        #[trigger] x2.children[j] as int,
        (h - 1) as nat,
        lo_of(kx2, lo, j),
        hi_of(kx2, hi, j),
        T - 1,
        after.len() as int,
    ) by {
        lemma_split_children::<K>(tree, keys, after, x, x2, h, lo, hi, i, j);
    }
    assert forall|k: K| #[trigger]
        lookup(after, keys, x2, k, h) == lookup_before_split(tree, keys, x, k, h) by {
        lemma_split_lookup::<K>(tree, keys, after, x, x2, h, lo, hi, i, k);
    }
}

/// A node whose first key lies between the bounds of one child of a node is far
/// from the bounds of every other child.
pub proof fn lemma_near_is_far<K: Codec + PartialOrd>(
    tree: Seq<u8>,
    keys: Seq<u8>,
    l: int,
    kx: Seq<K>,
    lo: Option<K>,
    hi: Option<K>,
    i: int,
    j: int,
    end: int,
)
    requires
        is_total_order::<K>(),
        sorted_within(kx, lo, hi),
        0 <= i <= kx.len(),
        0 <= j <= kx.len(),
        i != j,
        near::<K>(tree, keys, l, lo_of(kx, lo, i), hi_of(kx, hi, i)),
    ensures
        far::<K>(tree, keys, l, lo_of(kx, lo, j), hi_of(kx, hi, j), end),
{
    let n = node_at(tree, l)->0;
    let k0 = key_of::<K>(keys, n, 0);
    if j < i {
        assert(precedes(kx[i - 1], k0));
        if precedes(k0, kx[j]) {
            if j < i - 1 {
                lemma_before_before(kx[j], kx[i - 1], k0);
            }
        }
    } else {
        assert(precedes(k0, kx[i]));
        if precedes(kx[j - 1], k0) {
            if j - 1 > i {
                lemma_before_before(k0, kx[i], kx[j - 1]);
            }
        }
    }
}

/// A node whose first key lies between the bounds of a child of a node has it
/// between the bounds of the node.
pub proof fn lemma_near_widens<K: Codec + PartialOrd>(
    tree: Seq<u8>,
    keys: Seq<u8>,
    l: int,
    kx: Seq<K>,
    lo: Option<K>,
    hi: Option<K>,
    i: int,
)
    requires
        is_total_order::<K>(),
        sorted_within(kx, lo, hi),
        0 <= i <= kx.len(),
        near::<K>(tree, keys, l, lo_of(kx, lo, i), hi_of(kx, hi, i)),
    ensures
        near::<K>(tree, keys, l, lo, hi),
{
    let n = node_at(tree, l)->0;
    let k0 = key_of::<K>(keys, n, 0);
    if i > 0 && lo is Some {
        lemma_before_before(lo->0, kx[i - 1], k0);
    }
    if i < kx.len() && hi is Some {
        lemma_before_before(k0, kx[i], hi->0);
    }
}

/// The first key of a good subtree's root that holds a key lies between the
/// bounds of the subtree.
pub proof fn lemma_good_is_near<K: Codec + PartialOrd>(
    tree: Seq<u8>,
    keys: Seq<u8>,
    loc: int,
    h: nat,
    lo: Option<K>,
    hi: Option<K>,
    least: int,
    end: int,
)
    requires
        good::<K>(tree, keys, loc, h, lo, hi, least, end),
        node_at(tree, loc)->0.len >= 1,
    ensures
        near::<K>(tree, keys, loc, lo, hi),
{
    let n = node_at(tree, loc)->0;
    let ks = keys_of::<K>(keys, n);
    assert(value_at::<K>(keys, n.keys[0] as int) is Some);
    assert(ks[0] == key_of::<K>(keys, n, 0));
}

/// What the insertion below a child makes of the child, it makes of the node:
/// where the key belongs to the child at index `i` of a node with good children,
/// and the insertion below that child is done, the insertion below the node is
/// done.
pub proof fn lemma_descent<K: Codec + PartialOrd>(
    tree: Seq<u8>,
    keys: Seq<u8>,
    after: Seq<u8>,
    keys_after: Seq<u8>,
    x: Node,
    x_loc: int,
    h: nat,
    lo: Option<K>,
    hi: Option<K>,
    least: int,
    i: int,
    k: K,
    v_off: u64,
)
    requires
        is_ordered_key::<K>(),
        good_parent::<K>(tree, keys, x, x_loc, h, lo, hi, tree.len() as int),
        x.len >= 1,
        x.len >= least,
        above(lo, k),
        below(hi, k),
        !hits(keys_of::<K>(keys, x), k),
        i == scan_up(keys_of::<K>(keys, x), k, 0),
        is_prefix(keys, keys_after),
        inserted::<K>(
            tree,
            keys,
            after,
            keys_after,
            x.children[i] as int,
            (h - 1) as nat,
            lo_of(keys_of::<K>(keys, x), lo, i),
            hi_of(keys_of::<K>(keys, x), hi, i),
            T - 1,
            k,
            v_off,
        ),
    ensures
        node_at(after, x_loc) == Some(x),
        inserted::<K>(tree, keys, after, keys_after, x_loc, h, lo, hi, least, k, v_off),
{
    let kx = keys_of::<K>(keys, x);
    let c_loc = x.children[i] as int;
    let lo_i = lo_of(kx, lo, i);
    let hi_i = hi_of(kx, hi, i);
    let end = tree.len() as int;
    let later = after.len() as int;
    lemma_scan_up(kx, k, 0);
    lemma_put(kx, lo, hi, k, k);
    assert(good::<K>(tree, keys, c_loc, (h - 1) as nat, lo_i, hi_i, T - 1, end));
    lemma_good_is_near::<K>(tree, keys, c_loc, (h - 1) as nat, lo_i, hi_i, T - 1, end);
    // Every node that changed has its first key between the bounds of the child.
    assert forall|l: int|
        in_file(tree, l) && #[trigger] node_at(after, l) != node_at(tree, l) implies near::<K>(
        tree,
        keys,
        l,
        lo_i,
        hi_i,
    ) by {}
    // The node itself did not change.
    lemma_far_from_children::<K>(tree, keys, x, x_loc, lo, hi, i, end);
    assert(node_at(after, x_loc) == node_at(tree, x_loc));
    lemma_keys_still_read::<K>(keys, keys_after, x);
    assert forall|j: int| 0 <= j <= x.len && j != i implies good::<K>(
        after,
        keys_after,
        #[trigger] x.children[j] as int,
        (h - 1) as nat,
        lo_of(kx, lo, j),
        hi_of(kx, hi, j),
        T - 1,
        later,
    ) && node_at(after, x.children[j] as int) == node_at(tree, x.children[j] as int) && (forall|
        other: K,
    | #[trigger]
        lookup(after, keys_after, node_at(tree, x.children[j] as int)->0, other, (h - 1) as nat)
            == lookup(tree, keys, node_at(tree, x.children[j] as int)->0, other, (h - 1) as nat)) by {
        let a = lo_of(kx, lo, j);
        let b = hi_of(kx, hi, j);
        assert forall|l: int|
            in_file(tree, l) && #[trigger] node_at(after, l) != node_at(tree, l) implies far::<K>(
            tree,
            keys,
            l,
            a,
            b,
            end,
        ) by {
            lemma_near_is_far::<K>(tree, keys, l, kx, lo, hi, i, j, end);
        }
        lemma_frame::<K>(
            tree,
            keys,
            after,
            keys_after,
            x.children[j] as int,
            (h - 1) as nat,
            a,
            b,
            T - 1,
            end,
        );
        lemma_good_end::<K>(
            after,
            keys_after,
            x.children[j] as int,
            (h - 1) as nat,
            a,
            b,
            T - 1,
            end,
            later,
        );
    }
    assert(good::<K>(after, keys_after, x_loc, h, lo, hi, least, later));
    lemma_lookup_node::<K>(after, keys_after, x, k, h);
    assert forall|other: K| !same(other, k) implies #[trigger] lookup(
        after,
        keys_after,
        x,
        other,
        h,
    ) == lookup(tree, keys, x, other, h) by {
        lemma_lookup_node::<K>(after, keys_after, x, other, h);
        lemma_lookup_node::<K>(tree, keys, x, other, h);
        lemma_scan_up(kx, other, 0);
    }
    assert forall|l: int|
        in_file(tree, l) && #[trigger] node_at(after, l) != node_at(tree, l) implies l == x_loc
        || near::<K>(tree, keys, l, lo, hi) by {
        lemma_near_widens::<K>(tree, keys, l, kx, lo, hi, i);
    }
}

/// The stores are ready for the insertion of `k` below the node `x`: the subtree
/// of `x` is good, `k` lies between its bounds, and it does not hold `k`.
pub open spec fn ready<K: Codec + PartialOrd>(
    tree: Seq<u8>,
    keys: Seq<u8>,
    x: Node,
    k: K,
    h: nat,
    lo: Option<K>,
    hi: Option<K>,
    least: int,
) -> bool {
    &&& is_ordered_key::<K>()
    &&& node_at(tree, x.loc as int) == Some(x)
    &&& good::<K>(tree, keys, x.loc as int, h, lo, hi, least, tree.len() as int)
    &&& above(lo, k)
    &&& below(hi, k)
    &&& lookup(tree, keys, x, k, h) is Absent
}

/// An inner node that is ready for an insertion has good children, and the key
/// goes to the child at the index at which the search for it stops.
pub proof fn lemma_ready_parent<K: Codec + PartialOrd>(
    tree: Seq<u8>,
    keys: Seq<u8>,
    x: Node,
    k: K,
    h: nat,
    lo: Option<K>,
    hi: Option<K>,
    least: int,
    i: int,
)
    requires
        ready::<K>(tree, keys, x, k, h, lo, hi, least),
        !x.leaf,
        insert_index(keys, x, k, x.len as int) == Some(i),
    ensures
        h >= 1,
        x.len >= 1,
        good_parent::<K>(tree, keys, x, x.loc as int, h, lo, hi, tree.len() as int),
        !hits(keys_of::<K>(keys, x), k),
        i == scan_up(keys_of::<K>(keys, x), k, 0),
        0 <= i <= x.len,
{
    let kx = keys_of::<K>(keys, x);
    lemma_lookup_node::<K>(tree, keys, x, k, h);
    lemma_scan_up(kx, k, 0);
    lemma_miss(kx, lo, hi, k);
    lemma_scans_agree(kx, lo, hi, k);
    lemma_insert_index(keys, x, k, x.len as int);
}

/// The child that a key goes to is ready for the insertion of the key.
pub proof fn lemma_child_ready<K: Codec + PartialOrd>(
    tree: Seq<u8>,
    keys: Seq<u8>,
    x: Node,
    k: K,
    h: nat,
    lo: Option<K>,
    hi: Option<K>,
    i: int,
)
    requires
        is_ordered_key::<K>(),
        good_parent::<K>(tree, keys, x, x.loc as int, h, lo, hi, tree.len() as int),
        x.len >= 1,
        above(lo, k),
        below(hi, k),
        !hits(keys_of::<K>(keys, x), k),
        i == scan_up(keys_of::<K>(keys, x), k, 0),
        lookup(tree, keys, x, k, h) is Absent,
    ensures
        0 <= i <= x.len,
        node_at(tree, x.children[i] as int) is Some,
        ready::<K>(
            tree,
            keys,
            node_at(tree, x.children[i] as int)->0,
            k,
            (h - 1) as nat,
            lo_of(keys_of::<K>(keys, x), lo, i),
            hi_of(keys_of::<K>(keys, x), hi, i),
            T - 1,
        ),
{
    let kx = keys_of::<K>(keys, x);
    lemma_lookup_node::<K>(tree, keys, x, k, h);
    lemma_scan_up(kx, k, 0);
    lemma_put(kx, lo, hi, k, k);
    assert(good::<K>(
        tree,
        keys,
        x.children[i] as int,
        (h - 1) as nat,
        lo_of(kx, lo, i),
        hi_of(kx, hi, i),
        T - 1,
        tree.len() as int,
    ));
}

/// After the split of the child that a key goes to, the node is ready for the
/// insertion of the key as it was, and the key goes to the half of the child on
/// its side of the median.
pub proof fn lemma_after_split<K: Codec + PartialOrd>(
    tree: Seq<u8>,
    keys: Seq<u8>,
    after: Seq<u8>,
    x: Node,
    x2: Node,
    k: K,
    h: nat,
    lo: Option<K>,
    hi: Option<K>,
    least: int,
    i: int,
)
    requires
        ready::<K>(tree, keys, x, k, h, lo, hi, least),
        !x.leaf,
        x.len < NUM_KEYS,
        x.len >= 1,
        good_parent::<K>(tree, keys, x, x.loc as int, h, lo, hi, tree.len() as int),
        !hits(keys_of::<K>(keys, x), k),
        i == scan_up(keys_of::<K>(keys, x), k, 0),
        on_grid(tree.len() as int),
        split_done(tree, after, x, x2, i),
    ensures
        good_parent::<K>(after, keys, x2, x.loc as int, h, lo, hi, after.len() as int),
        x2.len >= 1,
        x2.len >= least,
        lookup(after, keys, x2, k, h) is Absent,
        !hits(keys_of::<K>(keys, x2), k),
        value_at::<K>(keys, x2.keys[i] as int) is Some,
        scan_up(keys_of::<K>(keys, x2), k, 0) == if follows(k, key_of::<K>(keys, x2, i)) {
            i + 1
        } else {
            i
        },
        forall|other: K| #[trigger]
            lookup(after, keys, x2, other, h) == lookup(tree, keys, x, other, h),
        forall|l: int|
            in_file(tree, l) && #[trigger] node_at(after, l) != node_at(tree, l) ==> l == x.loc
                || near::<K>(tree, keys, l, lo, hi),
{
    let kx = keys_of::<K>(keys, x);
    lemma_scan_up(kx, k, 0);
    lemma_split::<K>(tree, keys, after, x, x2, x.loc as int, h, lo, hi, tree.len() as int, i);
    lemma_median_put::<K>(tree, keys, x, x2, x.loc as int, h, lo, hi, tree.len() as int, i);
    let kx2 = keys_of::<K>(keys, x2);
    let y_loc = x.children[i] as int;
    let y = node_at(tree, y_loc)->0;
    let m = keys_of::<K>(keys, y)[T - 1];
    assert(kx2[i] == m);
    assert(value_at::<K>(keys, x2.keys[i] as int) is Some);
    assert(key_of::<K>(keys, x2, i) == kx2[i]);
    assert(lookup(after, keys, x2, k, h) == lookup_before_split(tree, keys, x, k, h));
    lemma_lookup_node::<K>(after, keys, x2, k, h);
    lemma_scan_up(kx2, k, 0);
    assert(!hits(kx2, k));
    lemma_miss(kx2, lo, hi, k);
    assert(!same(k, kx2[i]));
    lemma_put(kx, lo, hi, m, k);
    assert forall|other: K| #[trigger]
        lookup(after, keys, x2, other, h) == lookup(tree, keys, x, other, h) by {
        assert(lookup(after, keys, x2, other, h) == lookup_before_split(tree, keys, x, other, h));
    }
    assert(good::<K>(
        tree,
        keys,
        y_loc,
        (h - 1) as nat,
        lo_of(kx, lo, i),
        hi_of(kx, hi, i),
        T - 1,
        tree.len() as int,
    ));
    lemma_good_is_near::<K>(
        tree,
        keys,
        y_loc,
        (h - 1) as nat,
        lo_of(kx, lo, i),
        hi_of(kx, hi, i),
        T - 1,
        tree.len() as int,
    );
    lemma_near_widens::<K>(tree, keys, y_loc, kx, lo, hi, i);
}

/// An insertion that was done after a change that left every search as it was
/// is done as if there had been no such change.
pub proof fn lemma_compose<K: Codec + PartialOrd>(
    tree: Seq<u8>,
    keys: Seq<u8>,
    mid: Seq<u8>,
    after: Seq<u8>,
    keys_after: Seq<u8>,
    x_loc: int,
    h: nat,
    lo: Option<K>,
    hi: Option<K>,
    least: int,
    k: K,
    v_off: u64,
)
    requires
        tree.len() <= mid.len(),
        forall|other: K| #[trigger]
            lookup(mid, keys, node_at(mid, x_loc)->0, other, h) == lookup(
                tree,
                keys,
                node_at(tree, x_loc)->0,
                other,
                h,
            ),
        forall|l: int|
            in_file(tree, l) && #[trigger] node_at(mid, l) != node_at(tree, l) ==> l == x_loc
                || near::<K>(tree, keys, l, lo, hi),
        inserted::<K>(mid, keys, after, keys_after, x_loc, h, lo, hi, least, k, v_off),
    ensures
        inserted::<K>(tree, keys, after, keys_after, x_loc, h, lo, hi, least, k, v_off),
{
    assert forall|other: K| !same(other, k) implies #[trigger] lookup(
        after,
        keys_after,
        node_at(after, x_loc)->0,
        other,
        h,
    ) == lookup(tree, keys, node_at(tree, x_loc)->0, other, h) by {
        assert(lookup(mid, keys, node_at(mid, x_loc)->0, other, h) == lookup(
            tree,
            keys,
            node_at(tree, x_loc)->0,
            other,
            h,
        ));
    }
    assert forall|l: int|
        in_file(tree, l) && #[trigger] node_at(after, l) != node_at(tree, l) implies l == x_loc
        || near::<K>(tree, keys, l, lo, hi) by {
        if node_at(mid, l) == node_at(tree, l) {
            assert(in_file(mid, l));
            assert(node_at(after, l) != node_at(mid, l));
        }
    }
}

/// A node without keys that was appended to the tree store as the parent of a
/// good full root has good children, and a search at its child comes to what
/// it came to.
pub proof fn lemma_new_root<K: Codec + PartialOrd>(
    tree: Seq<u8>,
    keys: Seq<u8>,
    grown: Seq<u8>,
    s: Node,
    root: int,
    h: nat,
)
    requires
        is_ordered_key::<K>(),
        good::<K>(tree, keys, root, h, None, None, 0, tree.len() as int),
        node_at(tree, root)->0.is_full(),
        on_grid(tree.len() as int),
        grown.len() == tree.len() + NODE_SIZE,
        forall|l: int| in_file(tree, l) ==> #[trigger] node_at(grown, l) == node_at(tree, l),
        node_at(grown, tree.len() as int) == Some(s),
        s.loc == tree.len(),
        !s.leaf,
        s.len == 0,
        s.children[0] == root,
    ensures
        good_parent::<K>(grown, keys, s, s.loc as int, h + 1, None, None, tree.len() as int),
        node_at(grown, root) == node_at(tree, root),
        forall|other: K| #[trigger]
            lookup(grown, keys, node_at(tree, root)->0, other, h) == lookup(
                tree,
                keys,
                node_at(tree, root)->0,
                other,
                h,
            ),
{
    let end = tree.len() as int;
    assert(good::<K>(tree, keys, root, h, None, None, T - 1, end));
    assert(keys.subrange(0, keys.len() as int) =~= keys);
    lemma_frame::<K>(tree, keys, grown, keys, root, h, None, None, T - 1, end);
    let ks = keys_of::<K>(keys, s);
    assert forall|j: int| 0 <= j <= s.len implies good::<K>(
        grown,
        keys,
        #[trigger] s.children[j] as int,
        h,
        lo_of(ks, None, j),
        hi_of(ks, None, j),
        T - 1,
        end,
    ) by {
        assert(j == 0);
    }
}

/// No child of a node with good children stands where the node stands.
pub proof fn lemma_child_elsewhere<K: Codec + PartialOrd>(
    tree: Seq<u8>,
    keys: Seq<u8>,
    x: Node,
    x_loc: int,
    h: nat,
    lo: Option<K>,
    hi: Option<K>,
    i: int,
)
    requires
        is_ordered_key::<K>(),
        good_parent::<K>(tree, keys, x, x_loc, h, lo, hi, tree.len() as int),
        x.len >= 1,
        0 <= i <= x.len,
    ensures
        x.children[i] != x_loc,
        node_at(tree, x.children[i] as int) is Some,
        on_grid(x.children[i] as int),
        node_at(tree, x.children[i] as int)->0.loc == x.children[i],
        node_at(tree, x.children[i] as int)->0.len >= T - 1,
{
    let kx = keys_of::<K>(keys, x);
    let end = tree.len() as int;
    lemma_far_from_children::<K>(tree, keys, x, x_loc, lo, hi, i, end);
    assert(good::<K>(
        tree,
        keys,
        x.children[i] as int,
        (h - 1) as nat,
        lo_of(kx, lo, i),
        hi_of(kx, hi, i),
        T - 1,
        end,
    ));
    lemma_good_is_near::<K>(
        tree,
        keys,
        x.children[i] as int,
        (h - 1) as nat,
        lo_of(kx, lo, i),
        hi_of(kx, hi, i),
        T - 1,
        end,
    );
}

/// The 64-bit numbers are keys as the lemmas here ask for them.
pub proof fn lemma_u64_is_ordered_key()
    ensures
        is_ordered_key::<u64>(),
{
    crate::codec::lemma_u64_is_self_delimiting();
}

} // verus!
