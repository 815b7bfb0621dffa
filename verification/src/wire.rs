//! Big-endian 64-bit words, the unit of the model format.

use vstd::prelude::*;

verus! {

/// The eight bytes of `w`, most significant first.
#[verifier::opaque]
pub open spec fn be_bytes(w: u64) -> Seq<u8> {
    seq![
        ((w >> 56) & 0xff) as u8,
        ((w >> 48) & 0xff) as u8,
        ((w >> 40) & 0xff) as u8,
        ((w >> 32) & 0xff) as u8,
        ((w >> 24) & 0xff) as u8,
        ((w >> 16) & 0xff) as u8,
        ((w >> 8) & 0xff) as u8,
        (w & 0xff) as u8,
    ]
}

/// The word whose big-endian bytes are the first eight bytes of `s`.
#[verifier::opaque]
pub open spec fn be_value(s: Seq<u8>) -> u64 {
    (s[0] as u64) << 56 | (s[1] as u64) << 48 | (s[2] as u64) << 40 | (s[3] as u64) << 32
        | (s[4] as u64) << 24 | (s[5] as u64) << 16 | (s[6] as u64) << 8 | (s[7] as u64)
}

/// The word stored at byte offset `pos` of `bytes`.
pub open spec fn word_at(bytes: Seq<u8>, pos: int) -> u64 {
    be_value(bytes.subrange(pos, pos + 8))
}

/// The eight bytes split off a word join to the word.
proof fn lemma_join_split(w: u64)
    by (bit_vector)
    ensures
        (((w >> 56) & 0xff) as u8 as u64) << 56 | (((w >> 48) & 0xff) as u8 as u64) << 48 | (((w
            >> 40) & 0xff) as u8 as u64) << 40 | (((w >> 32) & 0xff) as u8 as u64) << 32 | (((w
            >> 24) & 0xff) as u8 as u64) << 24 | (((w >> 16) & 0xff) as u8 as u64) << 16 | (((w
            >> 8) & 0xff) as u8 as u64) << 8 | ((w & 0xff) as u8 as u64) == w,
{
}

/// The word joined from eight bytes splits into those bytes.
proof fn lemma_split_join(b0: u8, b1: u8, b2: u8, b3: u8, b4: u8, b5: u8, b6: u8, b7: u8)
    by (bit_vector)
    ensures
        ({
            let w = (b0 as u64) << 56 | (b1 as u64) << 48 | (b2 as u64) << 40 | (b3 as u64) << 32
                | (b4 as u64) << 24 | (b5 as u64) << 16 | (b6 as u64) << 8 | (b7 as u64);
            &&& ((w >> 56) & 0xff) as u8 == b0
            &&& ((w >> 48) & 0xff) as u8 == b1
            &&& ((w >> 40) & 0xff) as u8 == b2
            &&& ((w >> 32) & 0xff) as u8 == b3
            &&& ((w >> 24) & 0xff) as u8 == b4
            &&& ((w >> 16) & 0xff) as u8 == b5
            &&& ((w >> 8) & 0xff) as u8 == b6
            &&& (w & 0xff) as u8 == b7
        }),
{
}

/// Reading back the bytes of a word gives the word.
pub proof fn lemma_value_of_bytes(w: u64)
    ensures
        be_bytes(w).len() == 8,
        be_value(be_bytes(w)) == w,
{
    reveal(be_bytes);
    reveal(be_value);
    lemma_join_split(w);
}

/// Writing out the word read from eight bytes gives those bytes.
pub proof fn lemma_bytes_of_value(s: Seq<u8>)
    requires
        s.len() == 8,
    ensures
        be_bytes(be_value(s)) == s,
{
    reveal(be_bytes);
    reveal(be_value);
    lemma_split_join(s[0], s[1], s[2], s[3], s[4], s[5], s[6], s[7]);
    assert(be_bytes(be_value(s)) =~= s);
}

/// A word written between two byte strings is read back at its offset.
pub proof fn lemma_word_at_written(pre: Seq<u8>, w: u64, post: Seq<u8>)
    ensures
        word_at(pre + be_bytes(w) + post, pre.len() as int) == w,
{
    let all = pre + be_bytes(w) + post;
    lemma_value_of_bytes(w);
    assert(all.subrange(pre.len() as int, pre.len() as int + 8) =~= be_bytes(w));
    lemma_value_of_bytes(w);
}

/// The lowest byte of a word.
fn low_byte(w: u64) -> (b: u8)
    ensures
        b == (w & 0xff) as u8,
{
    assert(w & 0xff < 256) by (bit_vector);
    (w & 0xff) as u8
}

/// Appends the big-endian bytes of `w` to `out`.
pub fn push_word(out: &mut Vec<u8>, w: u64)
    ensures
        final(out)@ == old(out)@ + be_bytes(w),
{
    reveal(be_bytes);
    out.push(low_byte(w >> 56));
    out.push(low_byte(w >> 48));
    out.push(low_byte(w >> 40));
    out.push(low_byte(w >> 32));
    out.push(low_byte(w >> 24));
    out.push(low_byte(w >> 16));
    out.push(low_byte(w >> 8));
    out.push(low_byte(w));
    assert(out@ =~= old(out)@ + be_bytes(w));
}

/// Reads the big-endian word that starts at byte offset `pos`.
pub fn read_word(bytes: &Vec<u8>, pos: usize) -> (w: u64)
    requires
        pos + 8 <= bytes.len(),
    ensures
        w == word_at(bytes@, pos as int),
{
    reveal(be_value);
    let ghost s = bytes@.subrange(pos as int, pos + 8);
    let b0: u64 = bytes[pos] as u64;
    let b1: u64 = bytes[pos + 1] as u64;
    let b2: u64 = bytes[pos + 2] as u64;
    let b3: u64 = bytes[pos + 3] as u64;
    let b4: u64 = bytes[pos + 4] as u64;
    let b5: u64 = bytes[pos + 5] as u64;
    let b6: u64 = bytes[pos + 6] as u64;
    let b7: u64 = bytes[pos + 7] as u64;
    assert(s[0] == bytes[pos as int] && s[1] == bytes[pos + 1] && s[2] == bytes[pos + 2] && s[3]
        == bytes[pos + 3] && s[4] == bytes[pos + 4] && s[5] == bytes[pos + 5] && s[6]
        == bytes[pos + 6] && s[7] == bytes[pos + 7]);
    b0 << 56 | b1 << 48 | b2 << 40 | b3 << 32 | b4 << 24 | b5 << 16 | b6 << 8 | b7
}

} // verus!
