//! Bit-packed vectors: one boolean per neuron, most significant bit first.

use vstd::prelude::*;

verus! {

/// Bit `i` of a packed vector: bit `7 - i % 8` of byte `i / 8`.
pub open spec fn bit_at(bytes: Seq<u8>, i: int) -> bool {
    (bytes[i / 8] >> ((7 - i % 8) as u8)) & 1 == 1
}

/// The byte with bit `shift` set where `on` holds, and no other.
pub open spec fn flag(on: bool, shift: u8) -> u8 {
    if on {
        1u8 << shift
    } else {
        0u8
    }
}

/// The byte that packs the first eight of `bits`, the first of them highest.
pub open spec fn byte_of(bits: Seq<bool>) -> u8 {
    flag(bits[0], 7) | flag(bits[1], 6) | flag(bits[2], 5) | flag(bits[3], 4) | flag(bits[4], 3)
        | flag(bits[5], 2) | flag(bits[6], 1) | flag(bits[7], 0)
}

/// The packed vector of `bits`: one byte for every full group of eight.
/// Bits that follow the last full group are left out.
pub open spec fn pack(bits: Seq<bool>) -> Seq<u8> {
    Seq::new(bits.len() / 8, |k: int| byte_of(bits.subrange(8 * k, 8 * k + 8)))
}

/// Each bit of a byte put together from eight flags is the flag at its
/// place.
proof fn lemma_byte_bits(
    b0: bool,
    b1: bool,
    b2: bool,
    b3: bool,
    b4: bool,
    b5: bool,
    b6: bool,
    b7: bool,
)
    by (bit_vector)
    ensures
        ({
            let y: u8 = (if b0 { 1u8 << 7u8 } else { 0u8 })
                | (if b1 { 1u8 << 6u8 } else { 0u8 })
                | (if b2 { 1u8 << 5u8 } else { 0u8 })
                | (if b3 { 1u8 << 4u8 } else { 0u8 })
                | (if b4 { 1u8 << 3u8 } else { 0u8 })
                | (if b5 { 1u8 << 2u8 } else { 0u8 })
                | (if b6 { 1u8 << 1u8 } else { 0u8 })
                | (if b7 { 1u8 << 0u8 } else { 0u8 });
            &&& ((y >> 7u8) & 1 == 1) == b0
            &&& ((y >> 6u8) & 1 == 1) == b1
            &&& ((y >> 5u8) & 1 == 1) == b2
            &&& ((y >> 4u8) & 1 == 1) == b3
            &&& ((y >> 3u8) & 1 == 1) == b4
            &&& ((y >> 2u8) & 1 == 1) == b5
            &&& ((y >> 1u8) & 1 == 1) == b6
            &&& ((y >> 0u8) & 1 == 1) == b7
        }),
{
}

/// Every bit that falls in a full group of eight is read back from the
/// packed vector at its own index.
pub proof fn lemma_pack_keeps_bits(bits: Seq<bool>, i: int)
    requires
        0 <= i < 8 * (bits.len() / 8),
    ensures
        pack(bits).len() == bits.len() / 8,
        bit_at(pack(bits), i) == bits[i],
{
    let k = i / 8;
    let group = bits.subrange(8 * k, 8 * k + 8);
    lemma_byte_bits(
        group[0],
        group[1],
        group[2],
        group[3],
        group[4],
        group[5],
        group[6],
        group[7],
    );
    assert(pack(bits)[k] == byte_of(group));
    assert(group[i % 8] == bits[i]);
}

/// Reads bit `i` of a packed vector.
pub fn input_bit(bytes: &Vec<u8>, i: usize) -> (on: bool)
    requires
        i / 8 < bytes.len(),
    ensures
        on == bit_at(bytes@, i as int),
{
    let shift: u8 = 7 - (i % 8) as u8;
    (bytes[i / 8] >> shift) & 1 == 1
}

/// The byte with bit `shift` set where `on` holds, and no other.
fn flag_byte(on: bool, shift: u8) -> (b: u8)
    requires
        shift < 8,
    ensures
        b == flag(on, shift),
{
    if on {
        1u8 << shift
    } else {
        0u8
    }
}

/// Packs `bits` eight to a byte, the first of each group highest. Bits that
/// follow the last full group are dropped.
pub fn pack_bits(bits: &Vec<bool>) -> (bytes: Vec<u8>)
    ensures
        bytes@ == pack(bits@),
{
    let groups: usize = bits.len() / 8;
    let mut bytes: Vec<u8> = Vec::new();
    let mut k: usize = 0;
    while k < groups
        invariant
            groups == bits.len() / 8,
            k <= groups,
            bytes@.len() == k,
            forall|j: int|
                0 <= j < k ==> #[trigger] bytes@[j] == byte_of(bits@.subrange(8 * j, 8 * j + 8)),
        decreases groups - k,
    {
        let at: usize = 8 * k;
        let byte: u8 = flag_byte(bits[at], 7) | flag_byte(bits[at + 1], 6) | flag_byte(
            bits[at + 2],
            5,
        ) | flag_byte(bits[at + 3], 4) | flag_byte(bits[at + 4], 3) | flag_byte(bits[at + 5], 2)
            | flag_byte(bits[at + 6], 1) | flag_byte(bits[at + 7], 0);
        bytes.push(byte);
        k += 1;
    }
    assert(bytes@ =~= pack(bits@));
    bytes
}

} // verus!
