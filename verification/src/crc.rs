//! CRC-32 (IEEE) over artifact sections, whole or streamed.

use vstd::prelude::*;

verus! {

/// One division step of the reflected polynomial: the low bit leaves the
/// register, and folds the polynomial in when it was set.
pub open spec fn bit_remainder(value: u32) -> u32 {
    if value & 1 != 0 {
        0xEDB8_8320u32 ^ (value >> 1)
    } else {
        value >> 1
    }
}

/// The register after a number of division steps.
pub open spec fn bit_remainders(value: u32, steps: nat) -> u32
    decreases steps,
{
    if steps == 0 {
        value
    } else {
        bit_remainder(bit_remainders(value, (steps - 1) as nat))
    }
}

/// Eight division steps: what one byte does to the register.
pub open spec fn byte_remainder(value: u32) -> u32 {
    bit_remainder(bit_remainder(bit_remainder(bit_remainder(
        bit_remainder(bit_remainder(bit_remainder(bit_remainder(value))))))))
}

/// The register after one more byte.
pub open spec fn absorb_byte(register: u32, byte: u8) -> u32 {
    byte_remainder(register ^ (byte as u32))
}

/// The register after a run of bytes, first byte first.
pub open spec fn absorb(register: u32, bytes: Seq<u8>) -> u32
    decreases bytes.len(),
{
    if bytes.len() == 0 {
        register
    } else {
        absorb_byte(absorb(register, bytes.drop_last()), bytes.last())
    }
}

/// The checksum of a byte string: the register starts with every bit set
/// and is complemented at the end.
pub open spec fn checksum(bytes: Seq<u8>) -> u32 {
    !absorb(u32::MAX, bytes)
}

/// Absorbing a concatenation is absorbing its parts in turn, so a section
/// read in chunks of any size has the checksum of the whole.
pub proof fn law_absorb_concat(register: u32, first: Seq<u8>, second: Seq<u8>)
    ensures
        absorb(register, first + second) == absorb(absorb(register, first), second),
    decreases second.len(),
{
    if second.len() == 0 {
        assert(first + second =~= first);
    } else {
        assert((first + second).drop_last() =~= first + second.drop_last());
        law_absorb_concat(register, first, second.drop_last());
    }
}

proof fn lemma_bit_remainder_injective(left: u32, right: u32)
    requires
        left != right,
    ensures
        bit_remainder(left) != bit_remainder(right),
{
    assert(left != right ==> bit_remainder(left) != bit_remainder(right)) by (bit_vector);
}

proof fn lemma_byte_remainder_injective(left: u32, right: u32)
    requires
        left != right,
    ensures
        byte_remainder(left) != byte_remainder(right),
{
    let l1 = bit_remainder(left);
    let r1 = bit_remainder(right);
    lemma_bit_remainder_injective(left, right);
    let l2 = bit_remainder(l1);
    let r2 = bit_remainder(r1);
    lemma_bit_remainder_injective(l1, r1);
    let l3 = bit_remainder(l2);
    let r3 = bit_remainder(r2);
    lemma_bit_remainder_injective(l2, r2);
    let l4 = bit_remainder(l3);
    let r4 = bit_remainder(r3);
    lemma_bit_remainder_injective(l3, r3);
    let l5 = bit_remainder(l4);
    let r5 = bit_remainder(r4);
    lemma_bit_remainder_injective(l4, r4);
    let l6 = bit_remainder(l5);
    let r6 = bit_remainder(r5);
    lemma_bit_remainder_injective(l5, r5);
    let l7 = bit_remainder(l6);
    let r7 = bit_remainder(r6);
    lemma_bit_remainder_injective(l6, r6);
    lemma_bit_remainder_injective(l7, r7);
}

proof fn lemma_absorb_injective(left: u32, right: u32, bytes: Seq<u8>)
    requires
        left != right,
    ensures
        absorb(left, bytes) != absorb(right, bytes),
    decreases bytes.len(),
{
    if bytes.len() > 0 {
        lemma_absorb_injective(left, right, bytes.drop_last());
        let l = absorb(left, bytes.drop_last());
        let r = absorb(right, bytes.drop_last());
        let byte = bytes.last() as u32;
        assert(l != r ==> (l ^ byte) != (r ^ byte)) by (bit_vector);
        lemma_byte_remainder_injective(l ^ byte, r ^ byte);
    }
}

/// Changing one byte of a payload always changes its checksum, so a single
/// damaged byte of a section never goes unnoticed.
pub proof fn law_single_byte_damage_is_caught(bytes: Seq<u8>, at: int, damaged: u8)
    requires
        0 <= at < bytes.len(),
        damaged != bytes[at],
    ensures
        checksum(bytes.update(at, damaged)) != checksum(bytes),
{
    let other = bytes.update(at, damaged);
    let head = bytes.subrange(0, at);
    let tail = bytes.subrange(at + 1, bytes.len() as int);
    assert(bytes =~= head.push(bytes[at]) + tail);
    assert(other =~= head.push(damaged) + tail);
    law_absorb_concat(u32::MAX, head.push(bytes[at]), tail);
    law_absorb_concat(u32::MAX, head.push(damaged), tail);
    assert(head.push(bytes[at]).drop_last() =~= head);
    assert(head.push(damaged).drop_last() =~= head);
    let register = absorb(u32::MAX, head);
    let byte = bytes[at];
    assert(byte != damaged ==> (register ^ (byte as u32)) != (register ^ (damaged as u32)))
        by (bit_vector);
    lemma_byte_remainder_injective(register ^ (byte as u32), register ^ (damaged as u32));
    lemma_absorb_injective(absorb_byte(register, byte), absorb_byte(register, damaged), tail);
    let l = absorb(u32::MAX, bytes);
    let r = absorb(u32::MAX, other);
    assert(l != r ==> !l != !r) by (bit_vector);
}

/// The remainders of the 256 single-byte registers.
fn remainder_table() -> (table: Vec<u32>)
    ensures
        table.len() == 256,
        forall|slot: int| 0 <= slot < 256 ==> #[trigger] table[slot] == byte_remainder(slot as u32),
{
    let mut table: Vec<u32> = Vec::with_capacity(256);
    let mut slot: u32 = 0;
    while slot < 256
        invariant
            slot <= 256,
            table.len() == slot,
            forall|i: int| 0 <= i < slot ==> #[trigger] table[i] == byte_remainder(i as u32),
        decreases 256 - slot,
    {
        let mut value: u32 = slot;
        let mut bit: u32 = 0;
        while bit < 8
            invariant
                bit <= 8,
                value == bit_remainders(slot, bit as nat),
            decreases 8 - bit,
        {
            value = if value & 1 != 0 {
                0xEDB8_8320 ^ (value >> 1)
            } else {
                value >> 1
            };
            bit += 1;
        }
        proof {
            reveal_with_fuel(bit_remainders, 9);
        }
        table.push(value);
        slot += 1;
    }
    table
}

/// The container checksum as an incremental state, for streamed reads.
pub struct Crc32(u32);

impl Crc32 {
    /// The register: what the bytes absorbed so far made of it.
    pub closed spec fn register(&self) -> u32 {
        self.0
    }

    pub fn new() -> (state: Crc32)
        ensures
            state.register() == absorb(u32::MAX, Seq::empty()),
    {
        Crc32(u32::MAX)
    }

    /// Absorbs `bytes` after everything absorbed before.
    pub fn update(&mut self, bytes: &[u8])
        ensures
            final(self).register() == absorb(old(self).register(), bytes@),
    {
        let ghost start = self.0;
        let table = remainder_table();
        let mut index: usize = 0;
        while index < bytes.len()
            invariant
                index <= bytes.len(),
                table.len() == 256,
                forall|slot: int|
                    0 <= slot < 256 ==> #[trigger] table[slot] == byte_remainder(slot as u32),
                self.0 == absorb(start, bytes@.subrange(0, index as int)),
            decreases bytes.len() - index,
        {
            let byte: u8 = bytes[index];
            let register: u32 = self.0;
            let slot: u32 = (register ^ (byte as u32)) & 0xFF;
            assert(slot < 256) by (bit_vector)
                requires
                    slot == (register ^ (byte as u32)) & 0xFF,
            ;
            self.0 = table[slot as usize] ^ (register >> 8);
            proof {
                assert(byte_remainder(slot) ^ (register >> 8) == byte_remainder(
                    register ^ (byte as u32),
                )) by (bit_vector)
                    requires
                        slot == (register ^ (byte as u32)) & 0xFF,
                ;
                let taken = bytes@.subrange(0, index + 1);
                assert(taken.drop_last() =~= bytes@.subrange(0, index as int));
            }
            index += 1;
        }
        assert(bytes@.subrange(0, bytes@.len() as int) =~= bytes@);
    }

    /// The checksum of everything absorbed.
    pub fn finish(&self) -> (sum: u32)
        ensures
            sum == !self.register(),
    {
        !self.0
    }
}

/// The checksum of one byte string.
pub fn crc32(bytes: &[u8]) -> (sum: u32)
    ensures
        sum == checksum(bytes@),
{
    let mut state = Crc32::new();
    state.update(bytes);
    state.finish()
}

/// A division step halves the register, and folds the reflected polynomial in
/// where it was odd.
pub proof fn law_division_steps_halve(value: u32)
    ensures
        value % 2 == 0 ==> bit_remainder(value) == value / 2,
        value % 2 == 1 ==> bit_remainder(value) == (value / 2) ^ 0xEDB8_8320u32,
{
    assert(value % 2 == 0 ==> bit_remainder(value) == value / 2) by (bit_vector);
    assert(value % 2 == 1 ==> bit_remainder(value) == (value / 2) ^ 0xEDB8_8320u32) by (bit_vector);
}

/// The checksum of nothing is zero, and a byte more takes eight division steps
/// of the register it is folded into.
pub proof fn law_checksums_take_eight_steps_a_byte(register: u32, bytes: Seq<u8>, next: u8)
    ensures
        checksum(Seq::empty()) == 0,
        absorb(register, Seq::empty()) == register,
        absorb(register, bytes.push(next)) == bit_remainders(
            absorb(register, bytes) ^ (next as u32),
            8,
        ),
        checksum(bytes) ^ absorb(u32::MAX, bytes) == u32::MAX,
{
    reveal_with_fuel(bit_remainders, 9);
    assert(bytes.push(next).drop_last() =~= bytes);
    let all: u32 = u32::MAX;
    assert(!all == 0u32) by (bit_vector)
        requires
            all == 0xFFFF_FFFFu32,
    ;
    let held = absorb(u32::MAX, bytes);
    assert(!held ^ held == 0xFFFF_FFFFu32) by (bit_vector);
}

} // verus!
