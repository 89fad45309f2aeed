//! Machine words as the bytes that hold them in memory: eight bytes each,
//! the low byte first.

use vstd::bytes::{
    lemma_auto_spec_u64_to_from_le_bytes, spec_u64_from_le_bytes, spec_u64_to_le_bytes,
    u64_from_le_bytes, u64_to_le_bytes,
};
use vstd::prelude::*;
use vstd::slice::slice_subrange;

verus! {

/// The bytes that hold the words `ws`, one word after the other.
pub open spec fn words_to_bytes(ws: Seq<u64>) -> Seq<u8> {
    Seq::new(ws.len() * 8, |i: int| spec_u64_to_le_bytes(ws[i / 8])[i % 8])
}

/// The words that the bytes `bs` hold; bytes behind the last whole word do
/// not count.
pub open spec fn bytes_to_words(bs: Seq<u8>) -> Seq<u64> {
    Seq::new((bs.len() / 8) as nat, |i: int| spec_u64_from_le_bytes(bs.subrange(8 * i, 8 * i + 8)))
}

/// The words read from the bytes that hold some words are those words.
pub proof fn lemma_words_roundtrip(ws: Seq<u64>)
    ensures
        words_to_bytes(ws).len() == 8 * ws.len(),
        bytes_to_words(words_to_bytes(ws)) == ws,
{
    lemma_auto_spec_u64_to_from_le_bytes();
    let bs = words_to_bytes(ws);
    assert forall|i: int| 0 <= i < ws.len() implies bytes_to_words(bs)[i] == ws[i] by {
        assert(bs.subrange(8 * i, 8 * i + 8) =~= spec_u64_to_le_bytes(ws[i]));
    }
    assert(bytes_to_words(bs) =~= ws);
}

/// The bytes that hold the words of `ws`.
pub fn encode_words(ws: &Vec<u64>) -> (out: Vec<u8>)
    requires
        ws@.len() * 8 <= usize::MAX,
    ensures
        out@ == words_to_bytes(ws@),
        out@.len() == 8 * ws@.len(),
{
    let mut out: Vec<u8> = Vec::new();
    let mut i: usize = 0;
    proof {
        lemma_auto_spec_u64_to_from_le_bytes();
    }
    while i < ws.len()
        invariant
            i <= ws@.len(),
            out@.len() == 8 * i,
            forall|k: int|
                0 <= k < 8 * i ==> #[trigger] out@[k] == spec_u64_to_le_bytes(ws@[k / 8])[k % 8],
            forall|x: u64| #[trigger] spec_u64_to_le_bytes(x).len() == 8,
        decreases ws@.len() - i,
    {
        let le = u64_to_le_bytes(ws[i]);
        let mut j: usize = 0;
        while j < 8
            invariant
                j <= 8,
                i < ws@.len(),
                le@ == spec_u64_to_le_bytes(ws@[i as int]),
                le@.len() == 8,
                out@.len() == 8 * i + j,
                forall|k: int|
                    0 <= k < 8 * i + j ==> #[trigger] out@[k] == spec_u64_to_le_bytes(
                        ws@[k / 8],
                    )[k % 8],
            decreases 8 - j,
        {
            out.push(le[j]);
            j += 1;
        }
        i += 1;
    }
    proof {
        assert(out@ =~= words_to_bytes(ws@));
    }
    out
}

/// The words that the bytes of `bs` hold.
pub fn decode_words(bs: &[u8]) -> (out: Vec<u64>)
    ensures
        out@ == bytes_to_words(bs@),
{
    let count: usize = bs.len() / 8;
    let mut out: Vec<u64> = Vec::new();
    let mut i: usize = 0;
    while i < count
        invariant
            i <= count,
            count == bs@.len() / 8,
            bs@.len() <= usize::MAX,
            out@.len() == i,
            forall|k: int|
                0 <= k < i ==> #[trigger] out@[k] == spec_u64_from_le_bytes(
                    bs@.subrange(8 * k, 8 * k + 8),
                ),
        decreases count - i,
    {
        let piece = slice_subrange(bs, 8 * i, 8 * i + 8);
        out.push(u64_from_le_bytes(piece));
        i += 1;
    }
    proof {
        assert(out@ =~= bytes_to_words(bs@));
    }
    out
}

/// The number that the word `x` stands for when its top bit is read as a
/// sign.
pub open spec fn spec_as_signed(x: u64) -> i64 {
    if x <= i64::MAX as u64 {
        x as i64
    } else {
        (x - 0x1_0000_0000_0000_0000) as i64
    }
}

/// The number that the low half of the word `x` stands for when the top
/// bit of that half is read as a sign.
pub open spec fn spec_low_signed(x: u64) -> i32 {
    if x % 0x1_0000_0000 < 0x8000_0000 {
        (x % 0x1_0000_0000) as i32
    } else {
        (x % 0x1_0000_0000 - 0x1_0000_0000) as i32
    }
}

/// The number that the low half of the word `x` stands for when the top
/// bit of that half is read as a sign.
pub fn low_signed(x: u64) -> (v: i32)
    ensures
        v == spec_low_signed(x),
{
    let low: u64 = x % 0x1_0000_0000;
    if low < 0x8000_0000 {
        low as i32
    } else {
        let below: u64 = 0xffff_ffff - low;
        -(below as i32) - 1
    }
}

/// The word that stands for the signed number `v`.
pub open spec fn spec_as_unsigned(v: i64) -> u64 {
    if v >= 0 {
        v as u64
    } else {
        (v + 0x1_0000_0000_0000_0000) as u64
    }
}

/// The number that the word `x` stands for when its top bit is read as a
/// sign.
pub fn as_signed(x: u64) -> (v: i64)
    ensures
        v == spec_as_signed(x),
        spec_as_unsigned(v) == x,
{
    if x <= i64::MAX as u64 {
        x as i64
    } else {
        let below: u64 = u64::MAX - x;
        -(below as i64) - 1
    }
}

/// The word that stands for the signed number `v`.
pub fn as_unsigned(v: i64) -> (x: u64)
    ensures
        x == spec_as_unsigned(v),
        spec_as_signed(x) == v,
{
    if v >= 0 {
        v as u64
    } else {
        let below: u64 = (-(v + 1)) as u64;
        u64::MAX - below
    }
}

} // verus!
