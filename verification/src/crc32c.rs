//! CRC-32C (Castagnoli), the checksum of write-ahead-log records.

use vstd::prelude::*;

verus! {

/// The reflected Castagnoli polynomial.
pub const POLY: u32 = 0x82F6_3B78;

/// One bit of the reflected CRC-32C shift register.
pub open spec fn crc_bit_step(c: u32) -> u32 {
    if c & 1 != 0 {
        POLY ^ (c >> 1)
    } else {
        c >> 1
    }
}

/// Eight bits of the shift register: what one input byte does once it has
/// been xored into the low byte.
pub open spec fn crc_byte_step(c: u32) -> u32 {
    crc_bit_step(
        crc_bit_step(
            crc_bit_step(crc_bit_step(crc_bit_step(crc_bit_step(crc_bit_step(crc_bit_step(c))))))
        ),
    )
}

/// The register after feeding `data`, byte by byte, into register state `crc`.
pub open spec fn crc_update(crc: u32, data: Seq<u8>) -> u32
    decreases data.len(),
{
    if data.len() == 0 {
        crc
    } else {
        crc_update(crc_byte_step(crc ^ (data[0] as u32)), data.drop_first())
    }
}

/// CRC-32C of `data`: initial register all ones, final value complemented.
pub open spec fn spec_crc32c(data: Seq<u8>) -> u32 {
    crc_update(0xFFFF_FFFFu32, data) ^ 0xFFFF_FFFFu32
}

/// The byte step only depends on the low byte beyond a plain shift of the
/// high bytes: this is what makes a 256-entry table enough.
proof fn lemma_byte_step_splits(x: u32)
    ensures
        crc_byte_step(x) == crc_byte_step(x & 0xff) ^ (x >> 8),
{
    assert(crc_byte_step(x) == crc_byte_step(x & 0xff) ^ (x >> 8)) by (bit_vector);
}

/// The 256-entry lookup table: entry `i` is the byte step of `i`.
fn build_table() -> (table: Vec<u32>)
    ensures
        table@.len() == 256,
        forall|i: int| 0 <= i < 256 ==> #[trigger] table@[i] == crc_byte_step(i as u32),
{
    let mut table: Vec<u32> = Vec::new();
    let mut i: u32 = 0;
    while i < 256
        invariant
            i <= 256,
            table@.len() == i,
            forall|j: int| 0 <= j < i ==> #[trigger] table@[j] == crc_byte_step(j as u32),
        decreases 256 - i,
    {
        let mut c: u32 = i;
        let mut k: u32 = 0;
        while k < 8
            invariant
                k <= 8,
                k == 0 ==> c == i,
                k == 1 ==> c == crc_bit_step(i),
                k == 2 ==> c == crc_bit_step(crc_bit_step(i)),
                k == 3 ==> c == crc_bit_step(crc_bit_step(crc_bit_step(i))),
                k == 4 ==> c == crc_bit_step(crc_bit_step(crc_bit_step(crc_bit_step(i)))),
                k == 5 ==> c == crc_bit_step(
                    crc_bit_step(crc_bit_step(crc_bit_step(crc_bit_step(i)))),
                ),
                k == 6 ==> c == crc_bit_step(
                    crc_bit_step(crc_bit_step(crc_bit_step(crc_bit_step(crc_bit_step(i))))),
                ),
                k == 7 ==> c == crc_bit_step(
                    crc_bit_step(
                        crc_bit_step(crc_bit_step(crc_bit_step(crc_bit_step(crc_bit_step(i))))),
                    ),
                ),
                k == 8 ==> c == crc_byte_step(i),
            decreases 8 - k,
        {
            c = if c & 1 != 0 {
                POLY ^ (c >> 1)
            } else {
                c >> 1
            };
            k = k + 1;
        }
        table.push(c);
        i = i + 1;
    }
    table
}

/// CRC-32C (Castagnoli) of `data`.
pub fn crc32c(data: &[u8]) -> (r: u32)
    ensures
        r == spec_crc32c(data@),
{
    let table = build_table();
    let mut crc: u32 = 0xFFFF_FFFF;
    let mut i: usize = 0;
    assert(data@.skip(0) =~= data@);
    while i < data.len()
        invariant
            i <= data@.len(),
            table@.len() == 256,
            forall|j: int| 0 <= j < 256 ==> #[trigger] table@[j] == crc_byte_step(j as u32),
            crc_update(crc, data@.skip(i as int)) == crc_update(0xFFFF_FFFFu32, data@),
        decreases data@.len() - i,
    {
        let b = data[i];
        let x: u32 = crc ^ (b as u32);
        let idx: u32 = x & 0xFF;
        assert(idx < 256 && x >> 8 == crc >> 8) by (bit_vector)
            requires
                idx == x & 0xFF,
                x == crc ^ (b as u32),
                b < 256,
        ;
        proof {
            lemma_byte_step_splits(x);
            let s = data@.skip(i as int);
            assert(s[0] == b);
            assert(s.drop_first() =~= data@.skip(i as int + 1));
        }
        crc = table[idx as usize] ^ (crc >> 8);
        i = i + 1;
    }
    crc ^ 0xFFFF_FFFF
}

} // verus!
