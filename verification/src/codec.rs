//! How keys and values become bytes.
//!
//! A value is stored as a sequence of bytes that tells its own length: a reader
//! that is given the offset of a record recovers the value from there on.

use vstd::bytes::lemma_auto_spec_u64_to_from_le_bytes;
use vstd::bytes::spec_u64_from_le_bytes;
use vstd::bytes::spec_u64_to_le_bytes;
use vstd::bytes::u64_from_le_bytes;
use vstd::bytes::u64_to_le_bytes;
use vstd::prelude::*;
use vstd::string::StringSliceAdditionalSpecFns;
use vstd::utf8::decode_utf8;
use vstd::utf8::encode_utf8;
use vstd::utf8::valid_utf8;
use crate::error::Error;
use crate::storage::window;
use crate::storage::Storage;

verus! {

/// The bytes `e` stand in `b` from offset `pos` on.
pub open spec fn holds_at(b: Seq<u8>, pos: int, e: Seq<u8>) -> bool {
    &&& 0 <= pos
    &&& pos + e.len() <= b.len()
    &&& b.subrange(pos, pos + e.len()) == e
}

/// What stands in `b` at an offset is the record of one value at most: no record
/// of `A` is the beginning of the record of another value.
pub open spec fn is_self_delimiting<A: Codec>() -> bool {
    forall|b: Seq<u8>, pos: int, x: A, y: A|
        #![trigger holds_at(b, pos, x.encoding()), holds_at(b, pos, y.encoding())]
        holds_at(b, pos, x.encoding()) && holds_at(b, pos, y.encoding()) ==> x == y
}

/// The value whose record stands in `b` at offset `pos`, if one does.
pub open spec fn value_at<A: Codec>(b: Seq<u8>, pos: int) -> Option<A> {
    if exists|x: A| holds_at(b, pos, x.encoding()) {
        Some(choose|x: A| holds_at(b, pos, x.encoding()))
    } else {
        None
    }
}

/// Where the record of `x` stands, `x` is the value found.
pub proof fn lemma_value_at<A: Codec>(b: Seq<u8>, pos: int, x: A)
    requires
        is_self_delimiting::<A>(),
        holds_at(b, pos, x.encoding()),
    ensures
        value_at::<A>(b, pos) == Some(x),
{
    let y = choose|y: A| holds_at(b, pos, y.encoding());
    assert(holds_at(b, pos, y.encoding()));
}

/// A record appended to `b` stands at the old end of `b`, and every record that
/// stood in `b` stands where it stood.
pub proof fn lemma_appended<A: Codec>(b: Seq<u8>, x: A, pos: int, y: A)
    ensures
        holds_at(b + x.encoding(), b.len() as int, x.encoding()),
        holds_at(b, pos, y.encoding()) ==> holds_at(b + x.encoding(), pos, y.encoding()),
{
    let after = b + x.encoding();
    assert(after.subrange(b.len() as int, (b.len() + x.encoding().len()) as int) =~= x.encoding());
    if holds_at(b, pos, y.encoding()) {
        assert(after.subrange(pos, pos + y.encoding().len()) =~= b.subrange(
            pos,
            pos + y.encoding().len(),
        ));
    }
}

/// A type of keys or values: its values can be written as records and read back.
pub trait Codec: Sized {
    /// The record of the value. A type states it by giving this function a body
    /// of its own; one that leaves it as it is is held to the contracts below by
    /// its author alone.
    open spec fn encoding(&self) -> Seq<u8> {
        Seq::empty()
    }

    /// The record of the value.
    fn serialize(&self) -> (r: Vec<u8>)
        ensures
            r@ == self.encoding(),
    ;

    /// Every record of the type that stands in `b` is read back from a steady
    /// store that holds `b`. A type that can say so gives this function a body of
    /// its own; for one that leaves it as it is, no reading is owed success.
    open spec fn reads_from(b: Seq<u8>) -> bool {
        false
    }

    /// The value whose record stands in `file` at offset `pos`. The store does
    /// not change. From a steady store the record of a value is read where one
    /// stands, for a type that reads its records from what the store holds; an
    /// error of such a store is `Corrupt`.
    fn deserialize<F: Storage>(file: &mut F, pos: u64) -> (r: Result<Self, Error>)
        ensures
            final(file).bytes() == old(file).bytes(),
            final(file).steady() == old(file).steady(),
            final(file).room() == old(file).room(),
            r matches Ok(x) ==> holds_at(old(file).bytes(), pos as int, x.encoding()),
            old(file).steady() && Self::reads_from(old(file).bytes()) && (exists|x: Self| #[trigger]
                holds_at(old(file).bytes(), pos as int, x.encoding())) ==> r is Ok,
            old(file).steady() ==> (r matches Err(e) ==> e is Corrupt),
    ;
}

/// Reads exactly `len` bytes of `file` at `pos`; `Corrupt` where the store ends
/// before them. From a steady store the bytes are read exactly where it holds
/// them all.
pub fn read_exact<F: Storage>(file: &mut F, pos: u64, len: usize) -> (r: Result<Vec<u8>, Error>)
    ensures
        final(file).bytes() == old(file).bytes(),
        final(file).steady() == old(file).steady(),
        final(file).room() == old(file).room(),
        r matches Ok(v) ==> v@ == window(old(file).bytes(), pos as int, len as int) && v@.len()
            == len && (len > 0 ==> holds_at(old(file).bytes(), pos as int, v@)),
        old(file).steady() ==> old(file).bytes().len() <= u64::MAX && match r {
            Ok(_) => window(old(file).bytes(), pos as int, len as int).len() == len,
            Err(e) => e is Corrupt && window(old(file).bytes(), pos as int, len as int).len()
                != len,
        },
{
    match file.read_at(pos, len) {
        Ok(v) => {
            if v.len() == len {
                Ok(v)
            } else {
                Err(Error::Corrupt)
            }
        },
        Err(e) => Err(e),
    }
}

impl Codec for u64 {
    /// Eight bytes, the least significant first.
    open spec fn encoding(&self) -> Seq<u8> {
        spec_u64_to_le_bytes(*self)
    }

    fn serialize(&self) -> (r: Vec<u8>) {
        u64_to_le_bytes(*self)
    }

    /// Every eight bytes are the record of a number.
    open spec fn reads_from(b: Seq<u8>) -> bool {
        true
    }

    fn deserialize<F: Storage>(file: &mut F, pos: u64) -> (r: Result<Self, Error>)
        ensures
            r matches Ok(x) ==> x == spec_u64_from_le_bytes(
                window(old(file).bytes(), pos as int, 8),
            ),
            old(file).steady() ==> (r is Ok <==> pos + 8 <= old(file).bytes().len()),
    {
        proof {
            lemma_auto_spec_u64_to_from_le_bytes();
            if exists|x: u64| #[trigger] holds_at(file.bytes(), pos as int, x.encoding()) {
                let x = choose|x: u64| #[trigger] holds_at(file.bytes(), pos as int, x.encoding());
                assert(x.encoding().len() == 8);
            }
        }
        match read_exact(file, pos, 8) {
            Ok(v) => {
                proof {
                    lemma_auto_spec_u64_to_from_le_bytes();
                }
                Ok(u64_from_le_bytes(v.as_slice()))
            },
            Err(e) => Err(e),
        }
    }
}

/// The records of the 64-bit numbers tell their own length.
pub proof fn lemma_u64_is_self_delimiting()
    ensures
        is_self_delimiting::<u64>(),
{
    lemma_auto_spec_u64_to_from_le_bytes();
    assert forall|b: Seq<u8>, pos: int, x: u64, y: u64|
        #![trigger holds_at(b, pos, x.encoding()), holds_at(b, pos, y.encoding())]
        holds_at(b, pos, x.encoding()) && holds_at(b, pos, y.encoding()) implies x == y by {
        assert(spec_u64_to_le_bytes(x) == spec_u64_to_le_bytes(y));
    }
}

/// The string that `bytes` encode in UTF-8, if they encode one.
///
/// Calls `String::from_utf8`, which returns the string whose bytes the vector
/// holds where those are valid UTF-8, and an error elsewhere.
#[verifier::external_body]
fn string_from_utf8(bytes: Vec<u8>) -> (r: Option<String>)
    ensures
        r is Some <==> valid_utf8(bytes@),
        r matches Some(s) ==> s@ == decode_utf8(bytes@),
{
    String::from_utf8(bytes).ok()
}

/// The record of a string stands in `b` at offset `pos`: eight bytes that give a
/// length which an index can say, and then as many bytes, which are valid UTF-8.
pub open spec fn string_stands(b: Seq<u8>, pos: int) -> bool {
    &&& 0 <= pos
    &&& pos + 8 <= b.len()
    &&& spec_u64_from_le_bytes(b.subrange(pos, pos + 8)) <= usize::MAX
    &&& pos + 8 + spec_u64_from_le_bytes(b.subrange(pos, pos + 8)) <= b.len()
    &&& valid_utf8(
        b.subrange(pos + 8, pos + 8 + spec_u64_from_le_bytes(b.subrange(pos, pos + 8))),
    )
}

impl Codec for String {
    /// The number of bytes of the string in UTF-8, as a 64-bit number, and then
    /// those bytes.
    open spec fn encoding(&self) -> Seq<u8> {
        spec_u64_to_le_bytes(encode_utf8(self@).len() as u64) + encode_utf8(self@)
    }

    fn serialize(&self) -> (r: Vec<u8>) {
        let bytes = self.as_str().as_bytes();
        let mut out = u64_to_le_bytes(bytes.len() as u64);
        let mut i: usize = 0;
        while i < bytes.len()
            invariant
                i <= bytes@.len(),
                bytes@ == encode_utf8(self@),
                out@ == spec_u64_to_le_bytes(bytes@.len() as u64) + bytes@.take(i as int),
            decreases bytes@.len() - i,
        {
            out.push(bytes[i]);
            i += 1;
            assert(bytes@.take(i as int) == bytes@.take(i - 1).push(bytes@[i - 1]));
            assert(out@ =~= spec_u64_to_le_bytes(bytes@.len() as u64) + bytes@.take(i as int));
        }
        assert(bytes@.take(i as int) =~= bytes@);
        out
    }

    /// No record in `b` is longer than an index can say: a vector of bytes is
    /// always so short.
    open spec fn reads_from(b: Seq<u8>) -> bool {
        b.len() <= usize::MAX
    }

    fn deserialize<F: Storage>(file: &mut F, pos: u64) -> (r: Result<Self, Error>)
        ensures
            r matches Ok(x) ==> string_stands(old(file).bytes(), pos as int) && x@ == decode_utf8(
                old(file).bytes().subrange(
                    pos + 8,
                    pos + 8 + spec_u64_from_le_bytes(
                        old(file).bytes().subrange(pos as int, pos + 8),
                    ),
                ),
            ),
            old(file).steady() ==> (r is Ok <==> string_stands(old(file).bytes(), pos as int)),
    {
        broadcast use vstd::utf8::decode_utf8_encode_utf8;
        broadcast use vstd::utf8::encode_utf8_valid_utf8;

        let ghost b = old(file).bytes();
        proof {
            if file.steady() && Self::reads_from(b) && (exists|x: String| #[trigger]
                holds_at(b, pos as int, x.encoding())) {
                let x = choose|x: String| #[trigger] holds_at(b, pos as int, x.encoding());
                let payload = encode_utf8(x@);
                lemma_auto_spec_u64_to_from_le_bytes();
                let e = x.encoding();
                let head = spec_u64_to_le_bytes(payload.len() as u64);
                assert(head.len() == 8);
                assert(e.len() == 8 + payload.len());
                let held = b.subrange(pos as int, pos + e.len());
                assert(held == e);
                assert forall|i: int| 0 <= i < 8 implies b.subrange(pos as int, pos + 8)[i]
                    == head[i] by {
                    assert(held[i] == e[i]);
                }
                assert(b.subrange(pos as int, pos + 8) =~= head);
                assert forall|i: int| 0 <= i < payload.len() implies b.subrange(
                    pos + 8,
                    pos + 8 + payload.len(),
                )[i] == payload[i] by {
                    assert(held[8 + i] == e[8 + i]);
                }
                assert(b.subrange(pos + 8, pos + 8 + payload.len()) =~= payload);
                assert(string_stands(b, pos as int));
            }
        }

        let head = match read_exact(file, pos, 8) {
            Ok(v) => v,
            Err(e) => {
                return Err(e);
            },
        };
        let len = u64_from_le_bytes(head.as_slice());
        if pos > u64::MAX - 8 || len > usize::MAX as u64 {
            return Err(Error::Corrupt);
        }
        let body = match read_exact(file, pos + 8, len as usize) {
            Ok(v) => v,
            Err(e) => {
                return Err(e);
            },
        };
        let ghost payload = body@;
        match string_from_utf8(body) {
            Some(s) => {
                proof {
                    lemma_auto_spec_u64_to_from_le_bytes();
                    assert(encode_utf8(s@) == payload);
                    assert(spec_u64_to_le_bytes(len) == head@);
                    let b = old(file).bytes();
                    assert(b.subrange(pos as int, pos + 8 + len) =~= head@ + payload);
                }
                Ok(s)
            },
            None => Err(Error::Corrupt),
        }
    }
}

} // verus!
