//! A paged read and write buffer over a store, which keeps a fixed number of
//! pages ("slabs") in memory and evicts the least used one.
//!
//! The buffer is viewed as the bytes that a reader of it sees at each position:
//! those of a resident slab where one covers the position, those of the store
//! elsewhere, and zero beyond the store's end.

use std::collections::HashMap;
use vstd::prelude::*;
use vstd::std_specs::hash::*;
use crate::error::Error;
use crate::storage::byte_or_zero;
use crate::storage::overwritten;
use crate::storage::partly_written;
use crate::storage::Storage;

verus! {

/// Bytes in a slab: a power of two.
pub const SLAB_SIZE: usize = 0x10_0000;

/// The bits of a position that index into its slab.
pub const SLAB_MASK: u64 = 0xF_FFFF;

/// Slabs that a buffer holds where no number is asked for.
pub const DEFAULT_NUM_SLABS: usize = 16;

/// The first position that the buffer does not reach: the start of the one page
/// whose end no position can express.
pub const REACH: u64 = 0xFFFF_FFFF_FFF0_0000;

/// Where to move the cursor: to a position counted from the start, or by a
/// distance from the end of the store or from the cursor itself.
#[derive(Clone, Copy, Debug)]
pub enum SeekFrom {
    Start(u64),
    End(i64),
    Current(i64),
}

/// Start of the page that holds position `p`.
pub open spec fn page_start(p: int) -> int {
    p - p % 0x10_0000
}

/// End of the page that holds position `p`.
pub open spec fn page_end(p: int) -> int {
    page_start(p) + SLAB_SIZE
}

/// The page of `b` that starts at `start`, with zeros where `b` has no byte.
pub open spec fn page_of(b: Seq<u8>, start: int) -> Seq<u8> {
    Seq::new(SLAB_SIZE as nat, |i: int| byte_or_zero(b, start + i))
}

/// `b` read at every position, with zeros where it has no byte.
pub open spec fn zero_extended(b: Seq<u8>) -> Map<int, u8> {
    Map::total(|p: int| byte_or_zero(b, p))
}

/// The contents `c` after `d` was written at `at`.
pub open spec fn written(c: Map<int, u8>, at: int, d: Seq<u8>) -> Map<int, u8> {
    Map::total(
        |p: int|
            if at <= p < at + d.len() {
                d[p - at]
            } else {
                c[p]
            },
    )
}

/// The `n` bytes of the contents `c` from `at` on.
pub open spec fn read_back(c: Map<int, u8>, at: int, n: nat) -> Seq<u8> {
    Seq::new(n, |k: int| c[at + k])
}

/// What a store reads, byte by byte, once `d` was written to it at `pos`.
pub proof fn lemma_overwritten_byte(b: Seq<u8>, pos: int, d: Seq<u8>, p: int)
    requires
        0 <= pos,
    ensures
        byte_or_zero(overwritten(b, pos, d), p) == if pos <= p < pos + d.len() {
            d[p - pos]
        } else {
            byte_or_zero(b, p)
        },
        overwritten(b, pos, d).len() == if d.len() == 0 || b.len() >= pos + d.len() {
            b.len()
        } else {
            (pos + d.len()) as nat
        },
{
}

/// Index of the slab that leaves when all are in use: scanning the use counts from
/// index `i` on, with `least` the index of the least count so far. The scan ends
/// as soon as the least count so far is 1.
pub open spec fn victim_from(uses: Seq<u64>, i: int, least: int) -> int
    decreases uses.len() - i,
{
    if i >= uses.len() || i < 0 || uses[least] == 1 {
        least
    } else if uses[least] > uses[i] {
        victim_from(uses, i + 1, i)
    } else {
        victim_from(uses, i + 1, least)
    }
}

/// Index of the slab that leaves when all are in use.
pub open spec fn victim(uses: Seq<u64>) -> int {
    victim_from(uses, 0, 0)
}

/// The slab that leaves was used once, or no slab was used less.
pub proof fn lemma_victim_least_used(uses: Seq<u64>, i: int, least: int)
    requires
        0 <= least < uses.len(),
        0 <= i <= uses.len(),
        forall|j: int| 0 <= j < i ==> uses[least] <= #[trigger] uses[j],
    ensures
        0 <= victim_from(uses, i, least) < uses.len(),
        uses[victim_from(uses, i, least)] == 1 || forall|j: int|
            0 <= j < uses.len() ==> uses[victim_from(uses, i, least)] <= #[trigger] uses[j],
    decreases uses.len() - i,
{
    if i >= uses.len() || uses[least] == 1 {
    } else if uses[least] > uses[i] {
        lemma_victim_least_used(uses, i + 1, i);
    } else {
        lemma_victim_least_used(uses, i + 1, least);
    }
}

/// `n` zero bytes.
fn zeros(n: usize) -> (r: Vec<u8>)
    ensures
        r@.len() == n,
        forall|i: int| 0 <= i < n ==> r@[i] == 0,
{
    let mut r: Vec<u8> = Vec::new();
    while r.len() < n
        invariant
            r@.len() <= n,
            forall|i: int| 0 <= i < r@.len() ==> r@[i] == 0,
        decreases n - r@.len(),
    {
        r.push(0u8);
    }
    r
}

/// The store `b` after the first `n` of `slabs` were written back to it, one
/// after the other.
pub open spec fn flushed(b: Seq<u8>, slabs: Seq<Slab>, n: int) -> Seq<u8>
    decreases n,
{
    if n <= 0 {
        b
    } else {
        overwritten(
            flushed(b, slabs, n - 1),
            slabs[n - 1].start_pos() as int,
            slabs[n - 1].page(),
        )
    }
}

/// The end of the store, as far as the buffer knows, after the first `n` of
/// `slabs` were written back, given that it was `end` before.
pub open spec fn flushed_end(end: u64, slabs: Seq<Slab>, n: int) -> u64
    decreases n,
{
    if n <= 0 {
        end
    } else if flushed_end(end, slabs, n - 1) < slabs[n - 1].start_pos() + SLAB_SIZE {
        (slabs[n - 1].start_pos() + SLAB_SIZE) as u64
    } else {
        flushed_end(end, slabs, n - 1)
    }
}

/// Every slab holds a whole page, and no two of them overlap.
pub open spec fn distinct_pages(slabs: Seq<Slab>) -> bool {
    &&& forall|i: int| 0 <= i < slabs.len() ==> (#[trigger] slabs[i]).page().len() == SLAB_SIZE
    &&& forall|i: int, j: int|
        0 <= i < j < slabs.len() ==> (#[trigger] slabs[i]).start_pos() + SLAB_SIZE <= (
        #[trigger] slabs[j]).start_pos() || slabs[j].start_pos() + SLAB_SIZE
            <= slabs[i].start_pos()
}

/// The store `b` holds the page of `slab` where the page starts.
pub open spec fn holds_page(b: Seq<u8>, slab: Slab) -> bool {
    &&& b.len() >= slab.start_pos() + slab.page().len()
    &&& forall|k: int|
        0 <= k < slab.page().len() ==> #[trigger] b[slab.start_pos() + k] == slab.page()[k]
}

/// Once the first `n` of `slabs` were written back, the store holds each of them.
pub proof fn lemma_flushed_holds(b: Seq<u8>, slabs: Seq<Slab>, n: int, i: int)
    requires
        distinct_pages(slabs),
        0 <= i < n <= slabs.len(),
    ensures
        holds_page(flushed(b, slabs, n), slabs[i]),
    decreases n,
{
    let prev = flushed(b, slabs, n - 1);
    let last = slabs[n - 1];
    assert(last.page().len() == SLAB_SIZE);
    assert(slabs[i].page().len() == SLAB_SIZE);
    if i < n - 1 {
        lemma_flushed_holds(b, slabs, n - 1, i);
        assert(slabs[i].start_pos() + SLAB_SIZE <= slabs[n - 1].start_pos() || slabs[n
            - 1].start_pos() + SLAB_SIZE <= slabs[i].start_pos());
        assert forall|k: int| 0 <= k < slabs[i].page().len() implies #[trigger] flushed(
            b,
            slabs,
            n,
        )[slabs[i].start_pos() + k] == slabs[i].page()[k] by {
            assert(prev[slabs[i].start_pos() + k] == slabs[i].page()[k]);
        }
    }
}

/// Writing back slabs that the store holds already leaves the store as it is.
pub proof fn lemma_flushed_again(b: Seq<u8>, slabs: Seq<Slab>, n: int)
    requires
        0 <= n <= slabs.len(),
        forall|i: int| 0 <= i < n ==> holds_page(b, #[trigger] slabs[i]),
    ensures
        flushed(b, slabs, n) == b,
    decreases n,
{
    if n > 0 {
        lemma_flushed_again(b, slabs, n - 1);
        assert(holds_page(b, slabs[n - 1]));
        let start = slabs[n - 1].start_pos() as int;
        let page = slabs[n - 1].page();
        let again = overwritten(b, start, page);
        assert forall|i: int| 0 <= i < b.len() implies again[i] == b[i] by {
            if start <= i < start + page.len() {
                assert(b[start + (i - start)] == page[i - start]);
            }
        }
        assert(again =~= b);
    }
}

/// A second flush with nothing in between leaves the store as the first one left
/// it.
pub proof fn lemma_flush_is_idempotent(b: Seq<u8>, slabs: Seq<Slab>)
    requires
        distinct_pages(slabs),
    ensures
        flushed(flushed(b, slabs, slabs.len() as int), slabs, slabs.len() as int) == flushed(
            b,
            slabs,
            slabs.len() as int,
        ),
{
    let once = flushed(b, slabs, slabs.len() as int);
    assert forall|i: int| 0 <= i < slabs.len() implies holds_page(once, #[trigger] slabs[i]) by {
        lemma_flushed_holds(b, slabs, slabs.len() as int, i);
    }
    lemma_flushed_again(once, slabs, slabs.len() as int);
}

/// What was written at a position is what is read there.
pub proof fn lemma_round_trip(c: Map<int, u8>, at: int, d: Seq<u8>)
    ensures
        read_back(written(c, at, d), at, d.len()) == d,
{
    assert(read_back(written(c, at, d), at, d.len()) =~= d);
}

/// A store that reads as the contents do after a write holds what was written,
/// where it was written.
pub proof fn lemma_store_holds_written(b: Seq<u8>, c: Map<int, u8>, at: int, d: Seq<u8>)
    requires
        zero_extended(b) == written(c, at, d),
    ensures
        forall|k: int| 0 <= k < d.len() ==> byte_or_zero(b, at + k) == #[trigger] d[k],
{
    assert forall|k: int| 0 <= k < d.len() implies byte_or_zero(b, at + k) == #[trigger] d[k] by {
        assert(zero_extended(b)[at + k] == byte_or_zero(b, at + k));
        assert(written(c, at, d)[at + k] == d[k]);
    }
}

/// The contents `c` after the writes `w`, in their order: each is a position and
/// the bytes written there.
pub open spec fn written_all(c: Map<int, u8>, w: Seq<(int, Seq<u8>)>) -> Map<int, u8>
    decreases w.len(),
{
    if w.len() == 0 {
        c
    } else {
        written(written_all(c, w.drop_last()), w.last().0, w.last().1)
    }
}

/// The write at index `i` of `w` covers the position `p`.
pub open spec fn is_written_by(w: Seq<(int, Seq<u8>)>, i: int, p: int) -> bool {
    0 <= i < w.len() && w[i].0 <= p < w[i].0 + w[i].1.len()
}

/// After writes, the contents hold at every position the byte of the last write
/// that covers it and, where none does, what they held before.
pub proof fn lemma_last_write_stands(c: Map<int, u8>, w: Seq<(int, Seq<u8>)>, p: int)
    requires
        c.dom().contains(p),
    ensures
        written_all(c, w).dom().contains(p),
        forall|i: int|
            #[trigger] is_written_by(w, i, p) && (forall|j: int|
                i < j < w.len() ==> !is_written_by(w, j, p)) ==> written_all(c, w)[p]
                == w[i].1[p - w[i].0],
        (forall|j: int| 0 <= j < w.len() ==> !is_written_by(w, j, p)) ==> written_all(c, w)[p]
            == c[p],
    decreases w.len(),
{
    if w.len() > 0 {
        let before = w.drop_last();
        let last = w.len() - 1;
        lemma_last_write_stands(c, before, p);
        assert forall|j: int| is_written_by(before, j, p) == (j < last && is_written_by(w, j, p)) by {
            if 0 <= j < last {
                assert(before[j] == w[j]);
            }
        }
        if is_written_by(w, last, p) {
            assert forall|i: int|
                #[trigger] is_written_by(w, i, p) && (forall|j: int|
                    i < j < w.len() ==> !is_written_by(w, j, p)) implies i == last by {
            }
        } else {
            assert forall|i: int|
                #[trigger] is_written_by(w, i, p) && (forall|j: int|
                    i < j < w.len() ==> !is_written_by(w, j, p)) implies written_all(c, w)[p]
                == w[i].1[p - w[i].0] by {
                assert(is_written_by(before, i, p));
                assert forall|j: int| i < j < before.len() implies !is_written_by(before, j, p) by {
                    assert(!is_written_by(w, j, p));
                }
            }
            if forall|j: int| 0 <= j < w.len() ==> !is_written_by(w, j, p) {
                assert forall|j: int| 0 <= j < before.len() implies !is_written_by(before, j, p) by {
                    assert(!is_written_by(w, j, p));
                }
            }
        }
    }
}

/// A store that reads as the contents of a buffer do after writes, as it does
/// once the buffer was flushed, holds at every position the byte of the last
/// write that covers it and, where none does, what the store `before` held
/// under the buffer when it was made.
pub proof fn lemma_store_holds_last_writes(
    before: Seq<u8>,
    after: Seq<u8>,
    w: Seq<(int, Seq<u8>)>,
    p: int,
)
    requires
        zero_extended(after) == written_all(zero_extended(before), w),
    ensures
        forall|i: int|
            #[trigger] is_written_by(w, i, p) && (forall|j: int|
                i < j < w.len() ==> !is_written_by(w, j, p)) ==> byte_or_zero(after, p)
                == w[i].1[p - w[i].0],
        (forall|j: int| 0 <= j < w.len() ==> !is_written_by(w, j, p)) ==> byte_or_zero(after, p)
            == byte_or_zero(before, p),
{
    lemma_last_write_stands(zero_extended(before), w, p);
    assert(zero_extended(after)[p] == byte_or_zero(after, p));
    assert(zero_extended(before)[p] == byte_or_zero(before, p));
}

/// The position that a seek to `pos` aims at, with the cursor at `cursor` and the
/// end of the store at `end`.
pub open spec fn seek_target(pos: SeekFrom, cursor: u64, end: u64) -> int {
    match pos {
        SeekFrom::Start(x) => x as int,
        SeekFrom::End(x) => end + x,
        SeekFrom::Current(x) => cursor + x,
    }
}

/// What a buffer holds, for the statements about it: of each resident slab, in
/// the order in which they are kept, the start, the bytes and the use count; the
/// bytes of the store; the cursor; the end of the store as far as the buffer
/// knows; and the most slabs that the buffer holds at a time.
pub struct Picture {
    pub slabs: Seq<(u64, Seq<u8>, u64)>,
    pub store: Seq<u8>,
    pub cursor: u64,
    pub end: u64,
    pub room: nat,
}

/// A slab of `slabs` holds the page that starts at `start`.
pub open spec fn holds(slabs: Seq<(u64, Seq<u8>, u64)>, start: int) -> bool {
    exists|i: int| 0 <= i < slabs.len() && (#[trigger] slabs[i]).0 == start
}

/// Index in `slabs` of a slab that holds the page that starts at `start`.
pub open spec fn holder(slabs: Seq<(u64, Seq<u8>, u64)>, start: int) -> int {
    choose|i: int| 0 <= i < slabs.len() && (#[trigger] slabs[i]).0 == start
}

/// The use counts of `slabs`.
pub open spec fn uses_of(slabs: Seq<(u64, Seq<u8>, u64)>) -> Seq<u64> {
    Seq::new(slabs.len(), |i: int| slabs[i].2)
}

/// `n` zero bytes.
pub open spec fn zero_bytes(n: int) -> Seq<u8> {
    Seq::new(n as nat, |i: int| 0u8)
}

/// The buffer `p` once the store reaches the end of the page of `loc`: where the
/// store ends before `loc` and before the end of that page, zeros are appended
/// to it up to the end of the page.
pub open spec fn filled(p: Picture, loc: u64) -> Picture {
    let start = page_start(loc as int);
    let from = if p.end > start {
        p.end as int
    } else {
        start
    };
    if p.end < start + SLAB_SIZE && p.end < loc {
        Picture {
            store: overwritten(p.store, from, zero_bytes(start + SLAB_SIZE - from)),
            end: (start + SLAB_SIZE) as u64,
            ..p
        }
    } else {
        p
    }
}

/// The buffer `p` once the page of `loc` is resident. A resident page stays; for
/// another the store is filled up, the page is read, unused, into a new slab
/// while there is room for one, and else into the slab that `victim` names,
/// which is written back first.
pub open spec fn admitted(p: Picture, loc: u64) -> Picture {
    let start = page_start(loc as int);
    let q = filled(p, loc);
    let fresh = (start as u64, page_of(q.store, start), 0u64);
    let v = victim(uses_of(q.slabs));
    if holds(p.slabs, start) {
        p
    } else if q.slabs.len() < q.room {
        Picture { slabs: q.slabs.push(fresh), ..q }
    } else {
        Picture {
            slabs: q.slabs.update(v, fresh),
            store: overwritten(q.store, q.slabs[v].0 as int, q.slabs[v].1),
            end: if q.end < q.slabs[v].0 + SLAB_SIZE {
                (q.slabs[v].0 + SLAB_SIZE) as u64
            } else {
                q.end
            },
            ..q
        }
    }
}

/// A use count after one more use: it does not pass the greatest count.
pub open spec fn one_more(uses: u64) -> u64 {
    if uses < u64::MAX {
        (uses + 1) as u64
    } else {
        uses
    }
}

/// The buffer `p` once the page of the cursor is resident and used once more.
pub open spec fn used(p: Picture) -> Picture {
    let a = admitted(p, p.cursor);
    let i = holder(a.slabs, page_start(p.cursor as int));
    Picture { slabs: a.slabs.update(i, (a.slabs[i].0, a.slabs[i].1, one_more(a.slabs[i].2))), ..a }
}

/// The buffer `p` after `n` bytes were read at the cursor in its page.
pub open spec fn read_in(p: Picture, n: int) -> Picture {
    let u = used(p);
    Picture { cursor: (p.cursor + n) as u64, ..u }
}

/// The page `page` with the bytes `d` written from index `at` on.
pub open spec fn patched(page: Seq<u8>, at: int, d: Seq<u8>) -> Seq<u8> {
    Seq::new(
        page.len(),
        |j: int|
            if at <= j < at + d.len() {
                d[j - at]
            } else {
                page[j]
            },
    )
}

/// The buffer `p` after the bytes `d` were written at the cursor in its page.
pub open spec fn wrote_in(p: Picture, d: Seq<u8>) -> Picture {
    let u = used(p);
    let i = holder(u.slabs, page_start(p.cursor as int));
    Picture {
        slabs: u.slabs.update(
            i,
            (u.slabs[i].0, patched(u.slabs[i].1, (p.cursor % 0x10_0000) as int, d), u.slabs[i].2),
        ),
        cursor: (p.cursor + d.len()) as u64,
        ..u
    }
}

/// The number of bytes from position `cursor` to the end of its page.
pub open spec fn room_in_page(cursor: u64) -> int {
    SLAB_SIZE - cursor % 0x10_0000
}

/// The buffer `p` after `n` bytes were read at the cursor page by page: from
/// each page as many as it holds from the cursor on, until all are read.
pub open spec fn read_pages(p: Picture, n: int) -> Picture
    decreases n,
{
    if n <= 0 {
        p
    } else if n <= room_in_page(p.cursor) {
        read_in(p, n)
    } else {
        read_pages(read_in(p, room_in_page(p.cursor)), n - room_in_page(p.cursor))
    }
}

/// The buffer `p` after `n` bytes were read at the cursor: in one go where they
/// lie in one page, and page by page elsewhere.
pub open spec fn after_read(p: Picture, n: int) -> Picture {
    if n <= room_in_page(p.cursor) {
        read_in(p, n)
    } else {
        read_pages(p, n)
    }
}

/// The buffer `p` after the bytes `d` were written at the cursor page by page.
pub open spec fn wrote_pages(p: Picture, d: Seq<u8>) -> Picture
    decreases d.len(),
{
    if d.len() == 0 {
        p
    } else if d.len() <= room_in_page(p.cursor) {
        wrote_in(p, d)
    } else {
        wrote_pages(
            wrote_in(p, d.take(room_in_page(p.cursor))),
            d.skip(room_in_page(p.cursor)),
        )
    }
}

/// The buffer `p` after the bytes `d` were written at the cursor: in one go where
/// they lie in one page, and page by page elsewhere.
pub open spec fn after_write(p: Picture, d: Seq<u8>) -> Picture {
    if d.len() <= room_in_page(p.cursor) {
        wrote_in(p, d)
    } else {
        wrote_pages(p, d)
    }
}

/// Start of the page that holds `loc`.
fn page_start_of(loc: u64) -> (r: u64)
    ensures
        r == page_start(loc as int),
        r <= loc,
        loc - r < SLAB_SIZE,
        r % 0x10_0000 == 0,
        loc < REACH ==> r + SLAB_SIZE <= REACH,
{
    assert((loc | 0xF_FFFF) ^ 0xF_FFFF == loc - loc % 0x10_0000) by (bit_vector);
    (loc | SLAB_MASK) ^ SLAB_MASK
}

/// Index of `loc` in its page.
fn offset_in_page(loc: u64) -> (r: usize)
    ensures
        r == loc % 0x10_0000,
        r == loc - page_start(loc as int),
        r < SLAB_SIZE,
{
    assert(loc & 0xF_FFFF == loc % 0x10_0000) by (bit_vector);
    (loc & SLAB_MASK) as usize
}

/// A page of a store, held in memory.
pub struct Slab {
    /// The bytes of the page.
    pub dat: Vec<u8>,
    /// Position in the store of the first byte of the page.
    pub start: u64,
    /// Number of times the slab was read or written.
    pub uses: u64,
}

impl Slab {
    /// Position in the store of the first byte of the page.
    pub open spec fn start_pos(&self) -> u64 {
        self.start
    }

    /// Number of times the slab was read or written.
    pub open spec fn use_count(&self) -> u64 {
        self.uses
    }

    /// The bytes of the page.
    pub open spec fn page(&self) -> Seq<u8> {
        self.dat@
    }

    /// The page of `file` that starts at `loc`, not yet used. Where the store ends
    /// within the page, zeros follow. The store does not change. A steady store
    /// gives the page.
    pub fn new<F: Storage>(loc: u64, file: &mut F) -> (r: Result<Slab, Error>)
        ensures
            final(file).bytes() == old(file).bytes(),
            final(file).steady() == old(file).steady(),
            final(file).room() == old(file).room(),
            r matches Ok(s) ==> {
                &&& s.start_pos() == loc
                &&& s.use_count() == 0
                &&& s.page() == page_of(old(file).bytes(), loc as int)
            },
            old(file).steady() ==> r is Ok,
    {
        match file.read_at(loc, SLAB_SIZE) {
            Ok(dat) => {
                let mut dat = dat;
                let ghost got = dat@;
                while dat.len() < SLAB_SIZE
                    invariant
                        got.len() <= dat@.len() <= SLAB_SIZE || got.len() == dat@.len(),
                        dat@.subrange(0, got.len() as int) == got,
                        forall|i: int| got.len() <= i < dat@.len() ==> dat@[i] == 0,
                    decreases SLAB_SIZE - dat@.len(),
                {
                    dat.push(0u8);
                }
                assert(dat@ =~= page_of(old(file).bytes(), loc as int)) by {
                    assert forall|i: int| 0 <= i < SLAB_SIZE implies dat@[i] == byte_or_zero(
                        old(file).bytes(),
                        loc + i,
                    ) by {
                        if i < got.len() {
                            assert(dat@[i] == dat@.subrange(0, got.len() as int)[i]);
                        }
                    }
                }
                Ok(Slab { dat, start: loc, uses: 0 })
            },
            Err(e) => Err(e),
        }
    }

    /// Writes the page back to where it starts in `file`. A steady store with room
    /// for the page takes it.
    pub fn write<F: Storage>(&self, file: &mut F) -> (r: Result<(), Error>)
        requires
            self.start_pos() + self.page().len() <= u64::MAX,
        ensures
            r is Ok ==> final(file).bytes() == overwritten(
                old(file).bytes(),
                self.start_pos() as int,
                self.page(),
            ),
            r is Err ==> partly_written(
                old(file).bytes(),
                final(file).bytes(),
                self.start_pos() as int,
                self.page(),
            ),
            final(file).steady() == old(file).steady(),
            final(file).room() == old(file).room(),
            old(file).steady() && self.start_pos() + self.page().len() <= old(file).room()
                ==> r is Ok,
    {
        file.write_at(self.start, self.dat.as_slice())
    }
}

/// The buffer.
pub struct BufFile<F: Storage> {
    /// The most slabs that the buffer holds at a time.
    pub slabs: usize,
    /// From the start of each resident page to the index of its slab in `dat`.
    pub map: HashMap<u64, usize>,
    /// The resident slabs.
    pub dat: Vec<Slab>,
    /// The store that is read and written through the buffer.
    pub file: F,
    /// The position of the next byte to read or write.
    pub cursor: u64,
    /// The number of bytes that the store holds, as far as the buffer knows: the
    /// store is never longer.
    pub end: u64,
}

impl<F: Storage> BufFile<F> {
    /// The bytes that the store under the buffer holds.
    pub open spec fn backing(&self) -> Seq<u8> {
        self.file.bytes()
    }

    /// The most slabs that the buffer holds at a time.
    pub open spec fn capacity(&self) -> nat {
        self.slabs as nat
    }

    /// The resident slabs, in the order in which they are kept.
    pub open spec fn resident(&self) -> Seq<Slab> {
        self.dat@
    }

    /// The position of the next byte to read or write.
    pub open spec fn position(&self) -> u64 {
        self.cursor
    }

    /// The number of bytes that the store holds, as far as the buffer knows: the
    /// store is never longer.
    pub open spec fn end_pos(&self) -> u64 {
        self.end
    }

    /// The store under the buffer is steady.
    pub open spec fn store_steady(&self) -> bool {
        self.file.steady()
    }

    /// The room of the store under the buffer.
    pub open spec fn store_room(&self) -> int {
        self.file.room()
    }

    /// The store under the buffer is steady and has room for every resident page:
    /// no slab fails to be written back. A call that makes no page resident that
    /// ends beyond the room of the store does not fail, and keeps the buffer so.
    pub open spec fn reliable(&self) -> bool {
        &&& self.file.steady()
        &&& forall|i: int|
            0 <= i < self.dat@.len() ==> (#[trigger] self.dat@[i]).start + SLAB_SIZE
                <= self.file.room()
    }

    /// A slab holds the page that starts at `start`.
    pub open spec fn is_resident(&self, start: int) -> bool {
        0 <= start <= u64::MAX && self.map@.contains_key(start as u64)
    }

    /// What holds of a buffer between calls: it holds no more slabs than it may,
    /// each of them a whole page that starts where the map says, no page twice,
    /// and the store is no longer than `end`.
    pub open spec fn wf(&self) -> bool {
        &&& self.slabs >= 1
        &&& self.dat@.len() <= self.slabs
        &&& self.end >= self.file.bytes().len()
        &&& forall|i: int|
            0 <= i < self.dat@.len() ==> {
                &&& (#[trigger] self.dat@[i]).dat@.len() == SLAB_SIZE
                &&& self.dat@[i].start % 0x10_0000 == 0
                &&& self.dat@[i].start < REACH
                &&& self.map@.contains_key(self.dat@[i].start)
                &&& self.map@[self.dat@[i].start] == i
            }
        &&& forall|k: u64| #[trigger]
            self.map@.contains_key(k) ==> self.map@[k] < self.dat@.len() && self.dat@[self.map@[k] as int].start
                == k
    }

    /// What the buffer holds: see `Picture`.
    pub open spec fn picture(&self) -> Picture {
        Picture {
            slabs: Seq::new(
                self.dat@.len(),
                |i: int| (self.dat@[i].start, self.dat@[i].dat@, self.dat@[i].uses),
            ),
            store: self.file.bytes(),
            cursor: self.cursor,
            end: self.end,
            room: self.slabs as nat,
        }
    }

    /// In a buffer as it is between calls, the slab that holds a page is the one
    /// that the map names.
    pub proof fn lemma_holder(&self, start: u64)
        requires
            self.wf(),
        ensures
            holds(self.picture().slabs, start as int) == self.map@.contains_key(start),
            self.map@.contains_key(start) ==> holder(self.picture().slabs, start as int)
                == self.map@[start],
            uses_of(self.picture().slabs) == self.use_counts(),
    {
        let slabs = self.picture().slabs;
        if self.map@.contains_key(start) {
            let i = self.map@[start] as int;
            assert(slabs[i].0 == start);
            let j = holder(slabs, start as int);
            assert(self.dat@[j].start == start);
        }
        if holds(slabs, start as int) {
            let j = holder(slabs, start as int);
            assert(self.dat@[j].start == start);
        }
        assert(uses_of(slabs) =~= self.use_counts());
    }

    /// The use counts of the resident slabs, in the order in which they are kept.
    pub open spec fn use_counts(&self) -> Seq<u64> {
        Seq::new(self.dat@.len(), |i: int| self.dat@[i].uses)
    }

    /// The byte that a reader of the buffer sees at position `p`.
    pub open spec fn byte_at(&self, p: int) -> u8 {
        let s = page_start(p);
        if 0 <= p && self.is_resident(s) {
            self.dat@[self.map@[s as u64] as int].dat@[p - s]
        } else {
            byte_or_zero(self.file.bytes(), p)
        }
    }

    /// The bytes that a reader of the buffer sees, at every position.
    pub open spec fn contents(&self) -> Map<int, u8> {
        Map::total(|p: int| self.byte_at(p))
    }

    /// The number of resident slabs never exceeds the capacity.
    pub proof fn lemma_resident_within_capacity(&self)
        requires
            self.wf(),
        ensures
            self.resident().len() <= self.capacity(),
            self.picture().slabs.len() <= self.picture().room,
            self.picture().room == self.capacity(),
            self.capacity() >= 1,
    {
    }

    /// A buffer of `DEFAULT_NUM_SLABS` slabs over `file`, with the cursor at the
    /// start. It fails where the store cannot tell its size, which a steady store
    /// can.
    pub fn new(file: F) -> (r: Result<BufFile<F>, Error>)
        ensures
            r matches Ok(b) ==> {
                &&& b.wf()
                &&& b.capacity() == DEFAULT_NUM_SLABS
                &&& b.position() == 0
                &&& b.end_pos() == file.bytes().len()
                &&& b.resident().len() == 0
                &&& b.backing() == file.bytes()
                &&& b.contents() == zero_extended(file.bytes())
                &&& b.picture() == (Picture {
                    slabs: Seq::empty(),
                    store: file.bytes(),
                    cursor: 0,
                    end: file.bytes().len() as u64,
                    room: DEFAULT_NUM_SLABS as nat,
                })
                &&& b.reliable() == file.steady()
                &&& b.store_steady() == file.steady()
                &&& b.store_room() == file.room()
            },
            file.steady() ==> r is Ok,
    {
        Self::with_capacity(DEFAULT_NUM_SLABS, file)
    }

    /// A buffer of at most `slabs` slabs over `file`, with the cursor at the
    /// start. It fails where the store cannot tell its size, which a steady store
    /// can.
    pub fn with_capacity(slabs: usize, file: F) -> (r: Result<BufFile<F>, Error>)
        requires
            slabs >= 1,
        ensures
            r matches Ok(b) ==> {
                &&& b.wf()
                &&& b.capacity() == slabs
                &&& b.position() == 0
                &&& b.end_pos() == file.bytes().len()
                &&& b.resident().len() == 0
                &&& b.backing() == file.bytes()
                &&& b.contents() == zero_extended(file.bytes())
                &&& b.picture() == (Picture {
                    slabs: Seq::empty(),
                    store: file.bytes(),
                    cursor: 0,
                    end: file.bytes().len() as u64,
                    room: slabs as nat,
                })
                &&& b.reliable() == file.steady()
                &&& b.store_steady() == file.steady()
                &&& b.store_room() == file.room()
            },
            file.steady() ==> r is Ok,
    {
        broadcast use group_hash_axioms;

        let end = match file.size() {
            Ok(n) => n,
            Err(e) => {
                return Err(e);
            },
        };
        let b = BufFile { slabs, dat: Vec::new(), map: HashMap::new(), file, cursor: 0, end };
        assert(b.contents() =~= zero_extended(file.bytes()));
        assert(b.picture().slabs =~= Seq::empty());
        Ok(b)
    }

    /// The store under the buffer, as it was last written.
    pub fn store(&self) -> (r: &F)
        ensures
            r.bytes() == self.backing(),
    {
        &self.file
    }

    /// Flushes the buffer and hands back the store, which then reads as the
    /// buffer did. No error where the buffer is reliable or holds no slab.
    pub fn close(self) -> (r: Result<F, Error>)
        requires
            self.wf(),
        ensures
            self.reliable() || self.resident().len() == 0 ==> r is Ok,
            r matches Ok(f) ==> {
                &&& zero_extended(f.bytes()) == self.contents()
                &&& f.bytes() == flushed(
                    self.backing(),
                    self.resident(),
                    self.resident().len() as int,
                )
            },
    {
        let mut buffer = self;
        match buffer.flush() {
            Ok(_) => Ok(buffer.file),
            Err(e) => Err(e),
        }
    }

    /// Index in `dat` of the slab that holds `loc`, if one does.
    fn find_slab(&self, loc: u64) -> (r: Option<usize>)
        requires
            self.wf(),
        ensures
            match r {
                Some(i) => {
                    &&& self.is_resident(page_start(loc as int))
                    &&& i == self.map@[page_start(loc as int) as u64]
                    &&& i < self.dat@.len()
                },
                None => !self.is_resident(page_start(loc as int)),
            },
    {
        broadcast use group_hash_axioms;

        let start = page_start_of(loc);
        if self.map.contains_key(&start) {
            let x = *self.map.get(&start).unwrap();
            Some(x)
        } else {
            None
        }
    }

    /// Index of the slab to evict: see `victim`.
    fn pick_victim(&self) -> (r: usize)
        requires
            self.dat@.len() >= 1,
        ensures
            r == victim(self.use_counts()),
            r < self.dat@.len(),
    {
        let mut min: usize = 0;
        let mut i: usize = 0;
        while i < self.dat.len()
            invariant
                self.dat@.len() >= 1,
                min < self.dat@.len(),
                i <= self.dat@.len(),
                victim_from(self.use_counts(), i as int, min as int) == victim(self.use_counts()),
            ensures
                victim(self.use_counts()) == min,
            decreases self.dat@.len() - i,
        {
            if self.dat[min].uses == 1 {
                break ;
            }
            if self.dat[min].uses > self.dat[i].uses {
                min = i;
            }
            i += 1;
        }
        min
    }

    /// Makes the page that holds `loc` resident, if it is not, and returns the index
    /// of its slab. Where the store ends before `loc` and before the end of the
    /// page, zeros are appended to it up to the end of the page. Where all slabs
    /// are in use, the one that `victim` names is written back and replaced. What
    /// a reader of the buffer sees does not change.
    #[verifier::rlimit(80)]
    fn add_slab(&mut self, loc: u64) -> (r: Result<usize, Error>)
        requires
            old(self).wf(),
            loc < REACH,
        ensures
            final(self).wf(),
            final(self).store_steady() == old(self).store_steady(),
            final(self).store_room() == old(self).store_room(),
            old(self).reliable() && page_end(loc as int) <= old(self).store_room() ==> r is Ok
                && final(self).reliable(),
            final(self).cursor == old(self).cursor,
            final(self).slabs == old(self).slabs,
            old(self).is_resident(page_start(loc as int)) ==> r is Ok && *final(self) == *old(self),
            final(self).contents() == old(self).contents(),
            r is Err ==> final(self).dat@ == old(self).dat@ && final(self).map@ == old(self).map@,
            r matches Ok(i) ==> {
                &&& i < final(self).dat@.len()
                &&& final(self).is_resident(page_start(loc as int))
                &&& i == final(self).map@[page_start(loc as int) as u64]
                &&& final(self).picture() == admitted(old(self).picture(), loc)
            },
    {
        broadcast use group_hash_axioms;

        let start = page_start_of(loc);
        proof {
            self.lemma_holder(start);
        }
        if self.map.contains_key(&start) {
            return Ok(*self.map.get(&start).unwrap());
        }
        let len = self.end;
        if len < start + SLAB_SIZE as u64 && len < loc {
            let from = if len > start {
                len
            } else {
                start
            };
            let fill = zeros((start + SLAB_SIZE as u64 - from) as usize);
            let ghost before = self.file.bytes();
            match self.file.write_at(from, fill.as_slice()) {
                Ok(_) => {},
                Err(e) => {
                    self.end = start + SLAB_SIZE as u64;
                    proof {
                        assert forall|p: int| self.byte_at(p) == old(self).byte_at(p) by {
                            assert(byte_or_zero(self.file.bytes(), p) == byte_or_zero(before, p));
                        }
                        assert(self.contents() =~= old(self).contents());
                    }
                    return Err(e);
                },
            }
            self.end = start + SLAB_SIZE as u64;
            proof {
                assert forall|p: int| self.byte_at(p) == old(self).byte_at(p) by {
                    lemma_overwritten_byte(before, from as int, fill@, p);
                }
                assert(self.contents() =~= old(self).contents());
                assert(fill@ =~= zero_bytes(start + SLAB_SIZE - from));
            }
        }
        let ghost mid = *self;
        proof {
            assert(mid.picture().slabs =~= old(self).picture().slabs);
            assert(mid.picture() == filled(old(self).picture(), loc));
            assert(mid.wf());
            mid.lemma_holder(start);
        }
        if self.dat.len() < self.slabs {
            let ind = self.dat.len();
            match Slab::new(start, &mut self.file) {
                Ok(x) => {
                    self.map.insert(start, ind);
                    self.dat.push(x);
                    proof {
                        assert(self.picture().slabs =~= mid.picture().slabs.push(
                            (start, page_of(mid.file.bytes(), start as int), 0u64),
                        ));
                        assert forall|p: int| self.byte_at(p) == mid.byte_at(p) by {
                            let s = page_start(p);
                            if 0 <= p && s == start {
                            } else if 0 <= p && mid.is_resident(s) {
                                assert(mid.map@[s as u64] < mid.dat@.len());
                            }
                        }
                        assert(self.contents() =~= old(self).contents());
                    }
                    Ok(ind)
                },
                Err(e) => Err(e),
            }
        } else {
            let min = self.pick_victim();
            match Slab::new(start, &mut self.file) {
                Ok(x) => {
                    let gone = self.dat[min].start;
                    match self.dat[min].write(&mut self.file) {
                        Ok(_) => {},
                        Err(e) => {
                            if self.end < gone + SLAB_SIZE as u64 {
                                self.end = gone + SLAB_SIZE as u64;
                            }
                            proof {
                                assert forall|p: int| self.byte_at(p) == mid.byte_at(p) by {
                                    assert(byte_or_zero(self.file.bytes(), p) == byte_or_zero(
                                        mid.file.bytes(),
                                        p,
                                    ) || gone <= p < gone + SLAB_SIZE);
                                }
                                assert(self.contents() =~= mid.contents());
                            }
                            return Err(e);
                        },
                    }
                    if self.end < gone + SLAB_SIZE as u64 {
                        self.end = gone + SLAB_SIZE as u64;
                    }
                    self.map.remove(&gone);
                    self.map.insert(start, min);
                    self.dat.set(min, x);
                    proof {
                        assert(self.picture().slabs =~= mid.picture().slabs.update(
                            min as int,
                            (start, page_of(mid.file.bytes(), start as int), 0u64),
                        ));
                        assert(mid.picture().slabs[min as int].0 == gone);
                        assert(mid.picture().slabs[min as int].1 == mid.dat@[min as int].dat@);
                        assert forall|p: int| self.byte_at(p) == mid.byte_at(p) by {
                            let s = page_start(p);
                            lemma_overwritten_byte(
                                mid.file.bytes(),
                                gone as int,
                                mid.dat@[min as int].dat@,
                                p,
                            );
                            if 0 <= p && s == start {
                            } else if 0 <= p && s == gone {
                            } else if 0 <= p && mid.is_resident(s) {
                                assert(mid.map@[s as u64] < mid.dat@.len());
                                assert(mid.map@[s as u64] != min);
                            }
                        }
                        assert(self.contents() =~= old(self).contents());
                    }
                    Ok(min)
                },
                Err(x) => Err(x),
            }
        }
    }

    /// Every position from `at` to `at + n`, and `at` itself, lies in a resident
    /// page.
    pub open spec fn covers(&self, at: int, n: int) -> bool {
        &&& self.is_resident(page_start(at))
        &&& forall|p: int| at <= p < at + n ==> self.is_resident(#[trigger] page_start(p))
    }

    /// The buffer reaches from the cursor over the `n` bytes after it.
    pub open spec fn in_reach(&self, n: int) -> bool {
        self.position() < REACH && self.position() + n <= REACH
    }

    /// Index of the slab that holds the cursor, made resident if it was not, with
    /// its use counted.
    fn slab_at_cursor(&mut self) -> (r: Result<usize, Error>)
        requires
            old(self).wf(),
            old(self).cursor < REACH,
        ensures
            final(self).wf(),
            final(self).store_steady() == old(self).store_steady(),
            final(self).store_room() == old(self).store_room(),
            old(self).reliable() && page_end(old(self).cursor as int) <= old(self).store_room()
                ==> r is Ok && final(self).reliable(),
            final(self).cursor == old(self).cursor,
            final(self).slabs == old(self).slabs,
            r is Err ==> final(self).contents() == old(self).contents(),
            old(self).is_resident(page_start(old(self).cursor as int)) ==> r is Ok && final(self).map@
                == old(self).map@,
            r matches Ok(i) ==> {
                &&& i < final(self).dat@.len()
                &&& final(self).is_resident(page_start(old(self).cursor as int))
                &&& i == final(self).map@[page_start(old(self).cursor as int) as u64]
                &&& final(self).contents() == old(self).contents()
                &&& final(self).picture() == used(old(self).picture())
                &&& i == holder(final(self).picture().slabs, page_start(old(self).cursor as int))
            },
    {
        let cursor = self.cursor;
        proof {
            self.lemma_holder(page_start(cursor as int) as u64);
        }
        let index = match self.find_slab(cursor) {
            Some(x) => x,
            None => match self.add_slab(cursor) {
                Ok(x) => x,
                Err(e) => {
                    return Err(e);
                },
            },
        };
        let ghost mid = *self;
        let uses = self.dat[index].uses;
        if uses < u64::MAX {
            self.dat[index].uses = uses + 1;
        }
        proof {
            mid.lemma_holder(page_start(cursor as int) as u64);
            assert(mid.picture() == admitted(old(self).picture(), cursor));
            let a = mid.picture();
            assert(self.picture().slabs =~= a.slabs.update(
                index as int,
                (a.slabs[index as int].0, a.slabs[index as int].1, one_more(a.slabs[index as int].2)),
            ));
            assert(self.wf());
            self.lemma_holder(page_start(cursor as int) as u64);
            assert forall|p: int| self.byte_at(p) == mid.byte_at(p) by {
                let s = page_start(p);
                if 0 <= p && mid.is_resident(s) {
                    assert(mid.map@[s as u64] < mid.dat@.len());
                }
            }
            assert(self.contents() =~= mid.contents());
        }
        Ok(index)
    }

    /// Copies the `n` bytes at the cursor, which lie in one page, to `buf` from
    /// index `done` on, and moves the cursor past them.
    fn read_in_page(&mut self, buf: &mut [u8], done: usize, n: usize) -> (r: Result<(), Error>)
        requires
            old(self).wf(),
            old(self).cursor < REACH,
            old(self).cursor % 0x10_0000 + n <= SLAB_SIZE,
            done + n <= old(buf)@.len(),
        ensures
            final(self).wf(),
            final(self).store_steady() == old(self).store_steady(),
            final(self).store_room() == old(self).store_room(),
            old(self).reliable() && page_end(old(self).cursor as int) <= old(self).store_room()
                ==> r is Ok && final(self).reliable(),
            final(self).slabs == old(self).slabs,
            r is Err ==> final(self).contents() == old(self).contents() && final(buf)@ == old(buf)@,
            final(buf)@.len() == old(buf)@.len(),
            old(self).is_resident(page_start(old(self).cursor as int)) ==> r is Ok && final(self).map@
                == old(self).map@,
            r is Err ==> final(self).cursor == old(self).cursor,
            r is Ok ==> {
                &&& final(self).picture() == read_in(old(self).picture(), n as int)
                &&& final(self).cursor == old(self).cursor + n
                &&& final(self).contents() == old(self).contents()
                &&& forall|k: int|
                    0 <= k < final(buf)@.len() ==> #[trigger] final(buf)@[k] == if done <= k < done
                        + n {
                        old(self).byte_at(old(self).cursor + k - done)
                    } else {
                        old(buf)@[k]
                    }
            },
    {
        let index = match self.slab_at_cursor() {
            Ok(x) => x,
            Err(e) => {
                return Err(e);
            },
        };
        let masked = offset_in_page(self.cursor);
        let room = buf.len();
        let mut k: usize = 0;
        while k < n
            invariant
                k <= n,
                done + n <= room,
                done + n <= buf@.len(),
                buf@.len() == old(buf)@.len(),
                masked + n <= SLAB_SIZE,
                index < self.dat@.len(),
                self.dat@[index as int].dat@.len() == SLAB_SIZE,
                forall|j: int|
                    0 <= j < buf@.len() ==> #[trigger] buf@[j] == if done <= j < done + k {
                        self.dat@[index as int].dat@[masked + j - done]
                    } else {
                        old(buf)@[j]
                    },
            decreases n - k,
        {
            buf[done + k] = self.dat[index].dat[masked + k];
            k += 1;
        }
        proof {
            assert forall|j: int| 0 <= j < buf@.len() implies #[trigger] buf@[j] == if done <= j
                < done + n {
                old(self).byte_at(old(self).cursor + j - done)
            } else {
                old(buf)@[j]
            } by {
                if done <= j < done + n {
                    let p = old(self).cursor + j - done;
                    assert(page_start(p) == page_start(old(self).cursor as int));
                    assert(self.byte_at(p) == self.contents()[p]);
                    assert(old(self).byte_at(p) == old(self).contents()[p]);
                }
            }
        }
        self.cursor = self.cursor + n as u64;
        proof {
            assert(self.contents() =~= old(self).contents());
        }
        Ok(())
    }

    /// Reads `buf.len()` bytes at the cursor into `buf` and moves the cursor past
    /// them. A read within one page is served from the slab of that page; a longer
    /// one page after page. Each page read is made resident and its use counted.
    /// `InvalidSeek`, with nothing changed, where the bytes lie beyond the buffer's
    /// reach. No error where every page read is resident, nor where the buffer
    /// is reliable and the store has room up to the end of the last page read.
    #[verifier::rlimit(80)]
    pub fn read(&mut self, buf: &mut [u8]) -> (r: Result<usize, Error>)
        requires
            old(self).wf(),
        ensures
            final(self).wf(),
            final(self).store_steady() == old(self).store_steady(),
            final(self).store_room() == old(self).store_room(),
            old(self).reliable() && old(self).in_reach(old(buf)@.len() as int) && page_end(
                old(self).position() + old(buf)@.len(),
            ) <= old(self).store_room() ==> r is Ok && final(self).reliable(),
            final(self).capacity() == old(self).capacity(),
            r is Err ==> final(self).contents() == old(self).contents(),
            final(buf)@.len() == old(buf)@.len(),
            !old(self).in_reach(old(buf)@.len() as int) ==> {
                &&& r matches Err(Error::InvalidSeek)
                &&& *final(self) == *old(self)
                &&& final(buf)@ == old(buf)@
            },
            old(self).in_reach(old(buf)@.len() as int) && old(self).covers(
                old(self).position() as int,
                old(buf)@.len() as int,
            ) ==> r is Ok,
            r matches Ok(n) ==> {
                &&& n == old(buf)@.len()
                &&& final(self).picture() == after_read(old(self).picture(), n as int)
                &&& final(self).position() == old(self).position() + n
                &&& final(self).contents() == old(self).contents()
                &&& final(buf)@ == read_back(
                    old(self).contents(),
                    old(self).position() as int,
                    n as nat,
                )
            },
    {
        let len = buf.len();
        if self.cursor >= REACH || len as u64 > REACH - self.cursor {
            return Err(Error::InvalidSeek);
        }
        let ghost covered = old(self).covers(old(self).cursor as int, len as int);
        if len <= SLAB_SIZE - offset_in_page(self.cursor) {
            match self.read_in_page(buf, 0, len) {
                Ok(_) => {},
                Err(e) => {
                    return Err(e);
                },
            }
            proof {
                assert(buf@ =~= read_back(old(self).contents(), old(self).cursor as int, len as nat));
            }
            Ok(len)
        } else {
            let mut bytes_read: usize = 0;
            while bytes_read < len
                invariant
                    self.wf(),
                    self.store_steady() == old(self).store_steady(),
                    self.store_room() == old(self).store_room(),
                    old(self).reliable() && page_end(old(self).cursor + len) <= old(self).store_room()
                        ==> self.reliable(),
                    self.slabs == old(self).slabs,
                    bytes_read <= len,
                    len == buf@.len(),
                    len == old(buf)@.len(),
                    old(self).cursor + len <= REACH,
                    self.cursor == old(self).cursor + bytes_read,
                    self.contents() == old(self).contents(),
                    read_pages(self.picture(), len - bytes_read) == read_pages(
                        old(self).picture(),
                        len as int,
                    ),
                    covered ==> self.map@ == old(self).map@,
                    covered == old(self).covers(old(self).cursor as int, len as int),
                    forall|k: int|
                        0 <= k < bytes_read ==> #[trigger] buf@[k] == old(self).byte_at(
                            old(self).cursor + k,
                        ),
                decreases len - bytes_read,
            {
                let room = SLAB_SIZE - offset_in_page(self.cursor);
                let to_read = if room < len - bytes_read {
                    room
                } else {
                    len - bytes_read
                };
                let ghost before = *self;
                proof {
                    if covered {
                        assert(old(self).is_resident(page_start(self.cursor as int)));
                    }
                }
                match self.read_in_page(buf, bytes_read, to_read) {
                    Ok(_) => {},
                    Err(e) => {
                        return Err(e);
                    },
                }
                proof {
                    assert forall|k: int| 0 <= k < bytes_read + to_read implies #[trigger] buf@[k]
                        == old(self).byte_at(old(self).cursor + k) by {
                        if k >= bytes_read {
                            let p = before.cursor + k - bytes_read;
                            assert(before.byte_at(p) == before.contents()[p]);
                            assert(old(self).byte_at(p) == old(self).contents()[p]);
                        }
                    }
                }
                bytes_read += to_read;
            }
            proof {
                assert(buf@ =~= read_back(old(self).contents(), old(self).cursor as int, len as nat));
            }
            Ok(len)
        }
    }

    /// Copies the `n` bytes of `buf` from index `done` on to the cursor, where they
    /// lie in one page, and moves the cursor past them.
    fn write_in_page(&mut self, buf: &[u8], done: usize, n: usize) -> (r: Result<(), Error>)
        requires
            old(self).wf(),
            old(self).cursor < REACH,
            old(self).cursor % 0x10_0000 + n <= SLAB_SIZE,
            done + n <= buf@.len(),
        ensures
            final(self).wf(),
            final(self).store_steady() == old(self).store_steady(),
            final(self).store_room() == old(self).store_room(),
            old(self).reliable() && page_end(old(self).cursor as int) <= old(self).store_room()
                ==> r is Ok && final(self).reliable(),
            final(self).slabs == old(self).slabs,
            r is Err ==> final(self).contents() == old(self).contents(),
            old(self).is_resident(page_start(old(self).cursor as int)) ==> r is Ok && final(self).map@
                == old(self).map@,
            r is Err ==> final(self).cursor == old(self).cursor,
            r is Ok ==> {
                &&& final(self).picture() == wrote_in(
                    old(self).picture(),
                    buf@.subrange(done as int, done + n),
                )
                &&& final(self).cursor == old(self).cursor + n
                &&& forall|p: int|
                    #[trigger] final(self).byte_at(p) == if old(self).cursor <= p < old(self).cursor
                        + n {
                        buf@[done + p - old(self).cursor]
                    } else {
                        old(self).byte_at(p)
                    }
            },
    {
        let index = match self.slab_at_cursor() {
            Ok(x) => x,
            Err(e) => {
                return Err(e);
            },
        };
        let masked = offset_in_page(self.cursor);
        let room = buf.len();
        let ghost mid = *self;
        let mut k: usize = 0;
        while k < n
            invariant
                k <= n,
                done + n <= room,
                room == buf@.len(),
                masked + n <= SLAB_SIZE,
                index < self.dat@.len(),
                self.map@ == mid.map@,
                self.file == mid.file,
                self.slabs == mid.slabs,
                self.end == mid.end,
                self.cursor == mid.cursor,
                self.dat@.len() == mid.dat@.len(),
                forall|i: int|
                    0 <= i < self.dat@.len() && i != index ==> #[trigger] self.dat@[i] == mid.dat@[i],
                self.dat@[index as int].start == mid.dat@[index as int].start,
                self.dat@[index as int].uses == mid.dat@[index as int].uses,
                self.dat@[index as int].dat@.len() == SLAB_SIZE,
                mid.dat@[index as int].dat@.len() == SLAB_SIZE,
                forall|j: int|
                    0 <= j < SLAB_SIZE ==> #[trigger] self.dat@[index as int].dat@[j] == if masked
                        <= j < masked + k {
                        buf@[done + j - masked]
                    } else {
                        mid.dat@[index as int].dat@[j]
                    },
            decreases n - k,
        {
            self.dat[index].dat[masked + k] = buf[done + k];
            k += 1;
        }
        self.cursor = self.cursor + n as u64;
        proof {
            let u = mid.picture();
            let d = buf@.subrange(done as int, done + n);
            assert(u == used(old(self).picture()));
            assert(index == holder(u.slabs, page_start(old(self).cursor as int)));
            assert(self.picture().slabs =~= u.slabs.update(
                index as int,
                (
                    u.slabs[index as int].0,
                    patched(u.slabs[index as int].1, masked as int, d),
                    u.slabs[index as int].2,
                ),
            )) by {
                assert(self.dat@[index as int].dat@ =~= patched(
                    mid.dat@[index as int].dat@,
                    masked as int,
                    d,
                ));
            }
            assert(mid.wf());
            assert(self.wf()) by {
                assert forall|i: int| 0 <= i < self.dat@.len() implies {
                    &&& (#[trigger] self.dat@[i]).dat@.len() == SLAB_SIZE
                    &&& self.dat@[i].start % 0x10_0000 == 0
                    &&& self.dat@[i].start < REACH
                    &&& self.map@.contains_key(self.dat@[i].start)
                    &&& self.map@[self.dat@[i].start] == i
                } by {
                    assert(mid.dat@[i].dat@.len() == SLAB_SIZE);
                }
                assert forall|key: u64| #[trigger] self.map@.contains_key(key) implies self.map@[key]
                    < self.dat@.len() && self.dat@[self.map@[key] as int].start == key by {
                    assert(mid.map@.contains_key(key));
                    assert(mid.dat@[mid.map@[key] as int].start == key);
                }
            }
            assert forall|p: int| #[trigger]
                self.byte_at(p) == if old(self).cursor <= p < old(self).cursor + n {
                    buf@[done + p - old(self).cursor]
                } else {
                    old(self).byte_at(p)
                } by {
                let s = page_start(p);
                assert(mid.byte_at(p) == mid.contents()[p]);
                assert(old(self).byte_at(p) == old(self).contents()[p]);
                if 0 <= p && mid.is_resident(s) {
                    assert(mid.map@[s as u64] < mid.dat@.len());
                    assert(mid.dat@[mid.map@[s as u64] as int].start == s);
                    if old(self).cursor <= p < old(self).cursor + n {
                        assert(s == page_start(old(self).cursor as int));
                    }
                }
            }
        }
        Ok(())
    }

    /// Writes `buf` at the cursor and moves the cursor past it. The bytes go to
    /// the slabs of their pages, each made resident and its use counted: the store
    /// gets them when a slab is evicted or the buffer is flushed.
    /// `InvalidSeek`, with nothing changed, where the bytes lie beyond the buffer's
    /// reach. No error where every page written is resident, nor where the buffer
    /// is reliable and the store has room up to the end of the last page written.
    #[verifier::rlimit(80)]
    pub fn write(&mut self, buf: &[u8]) -> (r: Result<usize, Error>)
        requires
            old(self).wf(),
        ensures
            final(self).wf(),
            final(self).store_steady() == old(self).store_steady(),
            final(self).store_room() == old(self).store_room(),
            old(self).reliable() && old(self).in_reach(buf@.len() as int) && page_end(
                old(self).position() + buf@.len(),
            ) <= old(self).store_room() ==> r is Ok && final(self).reliable(),
            final(self).capacity() == old(self).capacity(),
            r is Err ==> exists|n: int|
                0 <= n <= buf@.len() && final(self).contents() == #[trigger] written(
                    old(self).contents(),
                    old(self).position() as int,
                    buf@.take(n),
                ),
            !old(self).in_reach(buf@.len() as int) ==> {
                &&& r matches Err(Error::InvalidSeek)
                &&& *final(self) == *old(self)
            },
            old(self).in_reach(buf@.len() as int) && old(self).covers(
                old(self).position() as int,
                buf@.len() as int,
            ) ==> r is Ok,
            r matches Ok(n) ==> {
                &&& n == buf@.len()
                &&& final(self).picture() == after_write(old(self).picture(), buf@)
                &&& final(self).position() == old(self).position() + n
                &&& final(self).contents() == written(
                    old(self).contents(),
                    old(self).position() as int,
                    buf@,
                )
            },
    {
        let len = buf.len();
        if self.cursor >= REACH || len as u64 > REACH - self.cursor {
            proof {
                assert(self.contents() =~= written(
                    old(self).contents(),
                    old(self).position() as int,
                    buf@.take(0),
                ));
            }
            return Err(Error::InvalidSeek);
        }
        let ghost covered = old(self).covers(old(self).cursor as int, len as int);
        if len <= SLAB_SIZE - offset_in_page(self.cursor) {
            match self.write_in_page(buf, 0, len) {
                Ok(_) => {},
                Err(e) => {
                    proof {
                        assert(self.contents() =~= written(
                            old(self).contents(),
                            old(self).position() as int,
                            buf@.take(0),
                        ));
                    }
                    return Err(e);
                },
            }
            proof {
                assert(buf@.subrange(0, len as int) =~= buf@);
                assert(self.contents() =~= written(
                    old(self).contents(),
                    old(self).cursor as int,
                    buf@,
                ));
            }
            Ok(len)
        } else {
            let mut bytes_written: usize = 0;
            assert(buf@.skip(0) =~= buf@);
            while bytes_written < len
                invariant
                    self.wf(),
                    self.store_steady() == old(self).store_steady(),
                    self.store_room() == old(self).store_room(),
                    old(self).reliable() && page_end(old(self).cursor + len) <= old(self).store_room()
                        ==> self.reliable(),
                    self.slabs == old(self).slabs,
                    bytes_written <= len,
                    len == buf@.len(),
                    old(self).cursor + len <= REACH,
                    self.cursor == old(self).cursor + bytes_written,
                    wrote_pages(self.picture(), buf@.skip(bytes_written as int)) == wrote_pages(
                        old(self).picture(),
                        buf@,
                    ),
                    covered ==> self.map@ == old(self).map@,
                    covered == old(self).covers(old(self).cursor as int, len as int),
                    forall|p: int|
                        #[trigger] self.byte_at(p) == if old(self).cursor <= p < old(self).cursor
                            + bytes_written {
                            buf@[p - old(self).cursor]
                        } else {
                            old(self).byte_at(p)
                        },
                decreases len - bytes_written,
            {
                let room = SLAB_SIZE - offset_in_page(self.cursor);
                let to_write = if room < len - bytes_written {
                    room
                } else {
                    len - bytes_written
                };
                let ghost before = *self;
                proof {
                    if covered {
                        assert(old(self).is_resident(page_start(self.cursor as int)));
                    }
                }
                match self.write_in_page(buf, bytes_written, to_write) {
                    Ok(_) => {},
                    Err(e) => {
                        proof {
                            assert forall|p: int| self.byte_at(p) == before.byte_at(p) by {
                                assert(self.contents()[p] == before.contents()[p]);
                            }
                            assert(self.contents() =~= written(
                                old(self).contents(),
                                old(self).position() as int,
                                buf@.take(bytes_written as int),
                            ));
                        }
                        return Err(e);
                    },
                }
                proof {
                    assert forall|p: int| #[trigger]
                        self.byte_at(p) == if old(self).cursor <= p < old(self).cursor
                            + bytes_written + to_write {
                            buf@[p - old(self).cursor]
                        } else {
                            old(self).byte_at(p)
                        } by {
                        assert(before.byte_at(p) == if old(self).cursor <= p < old(self).cursor
                            + bytes_written {
                            buf@[p - old(self).cursor]
                        } else {
                            old(self).byte_at(p)
                        });
                    }
                    let d = buf@.skip(bytes_written as int);
                    assert(d.take(to_write as int) =~= buf@.subrange(
                        bytes_written as int,
                        bytes_written + to_write,
                    ));
                    assert(d.skip(to_write as int) =~= buf@.skip(bytes_written + to_write));
                }
                bytes_written += to_write;
            }
            proof {
                assert(self.contents() =~= written(
                    old(self).contents(),
                    old(self).cursor as int,
                    buf@,
                ));
                assert(buf@.skip(len as int).len() == 0);
            }
            Ok(len)
        }
    }

    /// No two resident slabs hold the same page.
    pub proof fn lemma_resident_distinct(&self)
        requires
            self.wf(),
        ensures
            distinct_pages(self.resident()),
    {
        let slabs = self.dat@;
        assert forall|i: int, j: int| 0 <= i < j < slabs.len() implies (#[trigger] slabs[i]).start_pos()
            + SLAB_SIZE <= (#[trigger] slabs[j]).start_pos() || slabs[j].start_pos() + SLAB_SIZE
            <= slabs[i].start_pos() by {
            assert(self.map@[slabs[i].start] == i);
            assert(self.map@[slabs[j].start] == j);
        }
    }

    /// Writes every resident slab back to the store, in the order in which they
    /// are kept. The store then reads as the buffer does. The slabs stay. No
    /// error where the buffer is reliable or holds no slab.
    #[verifier::rlimit(60)]
    pub fn flush(&mut self) -> (r: Result<(), Error>)
        requires
            old(self).wf(),
        ensures
            final(self).wf(),
            final(self).store_steady() == old(self).store_steady(),
            final(self).store_room() == old(self).store_room(),
            final(self).reliable() == old(self).reliable(),
            old(self).reliable() || old(self).resident().len() == 0 ==> r is Ok,
            final(self).position() == old(self).position(),
            final(self).capacity() == old(self).capacity(),
            r is Err ==> final(self).contents() == old(self).contents(),
            final(self).resident() == old(self).resident(),
            final(self).picture().slabs == old(self).picture().slabs,
            final(self).picture().room == old(self).picture().room,
            r is Ok ==> {
                &&& final(self).picture().store == final(self).backing()
                &&& final(self).picture().cursor == old(self).position()
                &&& final(self).picture().end == final(self).end_pos()
                &&& final(self).end_pos() == flushed_end(
                    old(self).end_pos(),
                    old(self).resident(),
                    old(self).resident().len() as int,
                )
                &&& final(self).backing() == flushed(
                    old(self).backing(),
                    old(self).resident(),
                    old(self).resident().len() as int,
                )
                &&& zero_extended(final(self).backing()) == old(self).contents()
                &&& final(self).contents() == old(self).contents()
            },
    {
        let mut i: usize = 0;
        while i < self.dat.len()
            invariant
                self.wf(),
                self.store_steady() == old(self).store_steady(),
                self.store_room() == old(self).store_room(),
                self.dat@ == old(self).dat@,
                self.map@ == old(self).map@,
                self.cursor == old(self).cursor,
                self.slabs == old(self).slabs,
                old(self).wf(),
                i <= self.dat@.len(),
                self.end == flushed_end(old(self).end, old(self).dat@, i as int),
                self.file.bytes() == flushed(old(self).file.bytes(), old(self).dat@, i as int),
                forall|p: int|
                    #![trigger byte_or_zero(self.file.bytes(), p)]
                    byte_or_zero(self.file.bytes(), p) == if 0 <= p && old(self).is_resident(
                        page_start(p),
                    ) && old(self).map@[page_start(p) as u64] < i {
                        old(self).byte_at(p)
                    } else {
                        byte_or_zero(old(self).file.bytes(), p)
                    },
            decreases self.dat@.len() - i,
        {
            let ghost before = self.file.bytes();
            let start = self.dat[i].start;
            proof {
                if old(self).reliable() {
                    assert(old(self).dat@[i as int].start + SLAB_SIZE <= old(self).file.room());
                }
            }
            match self.dat[i].write(&mut self.file) {
                Ok(_) => {},
                Err(e) => {
                    if self.end < start + SLAB_SIZE as u64 {
                        self.end = start + SLAB_SIZE as u64;
                    }
                    proof {
                        assert forall|p: int| self.byte_at(p) == old(self).byte_at(p) by {
                            let s = page_start(p);
                            assert(byte_or_zero(self.file.bytes(), p) == byte_or_zero(before, p)
                                || start <= p < start + SLAB_SIZE);
                            if 0 <= p && old(self).is_resident(s) {
                                assert(old(self).map@[s as u64] < old(self).dat@.len());
                            }
                        }
                        assert(self.contents() =~= old(self).contents());
                    }
                    return Err(e);
                },
            }
            if self.end < start + SLAB_SIZE as u64 {
                self.end = start + SLAB_SIZE as u64;
            }
            proof {
                assert forall|p: int|
                    #![trigger byte_or_zero(self.file.bytes(), p)]
                    byte_or_zero(self.file.bytes(), p) == if 0 <= p && old(self).is_resident(
                        page_start(p),
                    ) && old(self).map@[page_start(p) as u64] < i + 1 {
                        old(self).byte_at(p)
                    } else {
                        byte_or_zero(old(self).file.bytes(), p)
                    } by {
                    lemma_overwritten_byte(before, start as int, self.dat@[i as int].dat@, p);
                    let s = page_start(p);
                    assert(byte_or_zero(before, p) == if 0 <= p && old(self).is_resident(s)
                        && old(self).map@[s as u64] < i {
                        old(self).byte_at(p)
                    } else {
                        byte_or_zero(old(self).file.bytes(), p)
                    });
                    if 0 <= p && old(self).is_resident(s) {
                        let at = old(self).map@[s as u64];
                        assert(at < old(self).dat@.len());
                        assert(old(self).dat@[at as int].start == s);
                    }
                }
            }
            i += 1;
        }
        proof {
            assert forall|p: int| byte_or_zero(self.file.bytes(), p) == old(self).byte_at(p) by {
                let s = page_start(p);
                if 0 <= p && old(self).is_resident(s) {
                    assert(old(self).map@[s as u64] < old(self).dat@.len());
                }
            }
            assert(zero_extended(self.file.bytes()) =~= old(self).contents());
            assert forall|p: int| self.byte_at(p) == old(self).byte_at(p) by {
                assert(byte_or_zero(self.file.bytes(), p) == old(self).byte_at(p));
            }
            assert(self.contents() =~= old(self).contents());
        }
        Ok(())
    }

    /// Moves the cursor to where `pos` says and makes the page there resident.
    /// `InvalidSeek`, with nothing changed, where that is before the start or
    /// beyond the buffer's reach. The cursor moves only where the seek succeeds.
    /// No error where the page is resident, nor where the buffer is reliable and
    /// the store has room up to the end of the page. What a reader sees does not
    /// change.
    pub fn seek(&mut self, pos: SeekFrom) -> (r: Result<u64, Error>)
        requires
            old(self).wf(),
        ensures
            final(self).wf(),
            final(self).store_steady() == old(self).store_steady(),
            final(self).store_room() == old(self).store_room(),
            old(self).reliable() && 0 <= seek_target(pos, old(self).position(), old(self).end_pos())
                < REACH && page_end(seek_target(pos, old(self).position(), old(self).end_pos()))
                <= old(self).store_room() ==> r is Ok && final(self).reliable(),
            final(self).capacity() == old(self).capacity(),
            r is Err ==> final(self).contents() == old(self).contents(),
            !(0 <= seek_target(pos, old(self).position(), old(self).end_pos()) < REACH) ==> {
                &&& r matches Err(Error::InvalidSeek)
                &&& *final(self) == *old(self)
            },
            0 <= seek_target(pos, old(self).position(), old(self).end_pos()) < REACH
                && old(self).is_resident(
                page_start(seek_target(pos, old(self).position(), old(self).end_pos())),
            )
                ==> r is Ok,
            r is Err ==> final(self).position() == old(self).position(),
            r matches Ok(p) ==> {
                &&& p == seek_target(pos, old(self).position(), old(self).end_pos())
                &&& final(self).picture() == (Picture {
                    cursor: p,
                    ..admitted(old(self).picture(), p)
                })
                &&& final(self).position() == p
                &&& final(self).is_resident(page_start(p as int))
                &&& final(self).contents() == old(self).contents()
            },
    {
        let target: i128 = match pos {
            SeekFrom::Start(x) => x as i128,
            SeekFrom::End(x) => self.end as i128 + x as i128,
            SeekFrom::Current(x) => self.cursor as i128 + x as i128,
        };
        if target < 0 || target >= REACH as i128 {
            return Err(Error::InvalidSeek);
        }
        let cursor = target as u64;
        proof {
            self.lemma_holder(page_start(cursor as int) as u64);
        }
        if self.find_slab(cursor).is_none() {
            match self.add_slab(cursor) {
                Ok(_) => {},
                Err(e) => {
                    return Err(e);
                },
            }
        }
        let ghost mid = *self;
        self.cursor = cursor;
        proof {
            assert forall|p: int| self.byte_at(p) == mid.byte_at(p) by {}
            assert(self.contents() =~= mid.contents());
        }
        Ok(cursor)
    }
}

} // verus!
