//! CRC-32, which every entry in a ZIP archive carries.
//!
//! The ordinary IEEE polynomial, reflected, as used by ZIP, PNG and gzip. The
//! table is computed rather than written out, because 256 constants in the
//! source are 256 chances to mistype one.

use vstd::prelude::*;

verus! {

/// The reflected form of the IEEE 802.3 polynomial.
pub const POLYNOMIAL: u32 = 0xEDB8_8320;

/// One bit of the division: shift right, folding the polynomial in when a one
/// falls off the end.
pub open spec fn bit_step(v: u32) -> u32 {
    if v & 1 == 1 {
        (v >> 1) ^ POLYNOMIAL
    } else {
        v >> 1
    }
}

/// `k` bits of the division.
pub open spec fn bit_steps(v: u32, k: nat) -> u32
    decreases k,
{
    if k == 0 {
        v
    } else {
        bit_step(bit_steps(v, (k - 1) as nat))
    }
}

/// The table entry for one byte value: eight bits of the division.
pub open spec fn table_entry(i: u32) -> u32 {
    bit_steps(i, 8)
}

/// The running remainder after one more byte.
pub open spec fn byte_step(state: u32, byte: u8) -> u32 {
    (state >> 8) ^ table_entry((state ^ (byte as u32)) & 0xFF)
}

/// The running remainder after a run of bytes, fed in order.
pub open spec fn feed(state: u32, bytes: Seq<u8>) -> u32
    decreases bytes.len(),
{
    if bytes.len() == 0 {
        state
    } else {
        byte_step(feed(state, bytes.drop_last()), bytes.last())
    }
}

/// The register a fresh checksum starts from.
pub open spec fn initial_state() -> u32 {
    0xFFFF_FFFF
}

/// The CRC-32 of some bytes.
pub open spec fn checksum(bytes: Seq<u8>) -> u32 {
    !feed(initial_state(), bytes)
}

fn table() -> (t: Vec<u32>)
    ensures
        t@.len() == 256,
        forall|i: int| 0 <= i < 256 ==> #[trigger] t@[i] == table_entry(i as u32),
{
    let mut table: Vec<u32> = Vec::new();
    let mut index: u32 = 0;
    while index < 256
        invariant
            index <= 256,
            table@.len() == index,
            forall|i: int| 0 <= i < index ==> #[trigger] table@[i] == table_entry(i as u32),
        decreases 256 - index,
    {
        let mut value: u32 = index;
        let mut bit: u32 = 0;
        while bit < 8
            invariant
                bit <= 8,
                value == bit_steps(index, bit as nat),
            decreases 8 - bit,
        {
            value = if value & 1 == 1 {
                (value >> 1) ^ POLYNOMIAL
            } else {
                value >> 1
            };
            bit = bit + 1;
        }
        table.push(value);
        index = index + 1;
    }
    table
}

/// A running CRC-32, for data that arrives in pieces.
#[derive(Clone, Copy, Debug)]
pub struct Crc32 {
    state: u32,
}

impl Crc32 {
    /// The remainder register.
    pub closed spec fn state(self) -> u32 {
        self.state
    }

    pub fn new() -> (c: Self)
        ensures
            c.state() == initial_state(),
    {
        Crc32 { state: 0xFFFF_FFFF }
    }

    pub fn update(&mut self, bytes: &[u8])
        ensures
            final(self).state() == feed(old(self).state(), bytes@),
    {
        let table = table();
        let mut state = self.state;
        let mut i: usize = 0;
        while i < bytes.len()
            invariant
                i <= bytes@.len(),
                table@.len() == 256,
                forall|k: int| 0 <= k < 256 ==> #[trigger] table@[k] == table_entry(k as u32),
                state == feed(old(self).state, bytes@.subrange(0, i as int)),
            decreases bytes.len() - i,
        {
            let byte = bytes[i];
            let masked: u32 = (state ^ (byte as u32)) & 0xFF;
            assert(masked < 256) by (bit_vector)
                requires
                    masked == (state ^ (byte as u32)) & 0xFF,
            ;
            let index = masked as usize;
            state = (state >> 8) ^ table[index];
            assert(bytes@.subrange(0, i + 1).drop_last() =~= bytes@.subrange(0, i as int));
            i = i + 1;
        }
        assert(bytes@.subrange(0, bytes@.len() as int) =~= bytes@);
        self.state = state;
    }

    pub fn finish(self) -> (r: u32)
        ensures
            r == !self.state(),
    {
        !self.state
    }
}

/// The CRC-32 of a whole slice.
pub fn crc32(bytes: &[u8]) -> (r: u32)
    ensures
        r == checksum(bytes@),
{
    let mut sum = Crc32::new();
    sum.update(bytes);
    sum.finish()
}

/// Feeding two pieces one after the other is feeding their concatenation.
pub proof fn lemma_feed_concat(state: u32, a: Seq<u8>, b: Seq<u8>)
    ensures
        feed(feed(state, a), b) == feed(state, a + b),
    decreases b.len(),
{
    if b.len() == 0 {
        assert(a + b =~= a);
    } else {
        lemma_feed_concat(state, a, b.drop_last());
        assert((a + b).drop_last() =~= a + b.drop_last());
        assert((a + b).last() == b.last());
    }
}

/// A checksum taken in pieces is the checksum of the whole: starting fresh
/// and feeding `a` then `b` finishes at the CRC-32 of `a` followed by `b`.
pub proof fn lemma_pieces_make_the_whole(a: Seq<u8>, b: Seq<u8>)
    ensures
        !feed(feed(initial_state(), a), b) == checksum(a + b),
{
    lemma_feed_concat(initial_state(), a, b);
}

/// An empty piece leaves the running checksum where it was.
pub proof fn lemma_empty_piece(state: u32)
    ensures
        feed(state, Seq::<u8>::empty()) == state,
{
}

} // verus!
