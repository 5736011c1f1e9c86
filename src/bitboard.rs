use vstd::prelude::*;

verus! {

/// Whether square `i` is set in the mask `bits`.
pub open spec fn is_set(bits: u64, i: int) -> bool {
    0 <= i < 64 && (bits >> (i as u64)) & 1u64 == 1u64
}

/// The square that `i` becomes when the eight ranks are reversed.
pub open spec fn mirror_index(i: int) -> int {
    (7 - i / 8) * 8 + i % 8
}

/// The mask with its eight ranks (bytes) in reverse order.
pub open spec fn mirror_bits(b: u64) -> u64 {
    ((b & 0xff) << 56u64) | (((b >> 8u64) & 0xff) << 48u64) | (((b >> 16u64) & 0xff) << 40u64)
        | (((b >> 24u64) & 0xff) << 32u64) | (((b >> 32u64) & 0xff) << 24u64) | (((b
        >> 40u64) & 0xff) << 16u64) | (((b >> 48u64) & 0xff) << 8u64) | ((b >> 56u64) & 0xff)
}

/// Number of set squares among `i..64`.
pub open spec fn count_from(bits: u64, i: int) -> nat
    decreases 64 - i,
{
    if i >= 64 || i < 0 {
        0
    } else {
        (if is_set(bits, i) { 1nat } else { 0nat }) + count_from(bits, i + 1)
    }
}

/// The set squares among `i..64`, ascending.
pub open spec fn indices_from(bits: u64, i: int) -> Seq<usize>
    decreases 64 - i,
{
    if i >= 64 || i < 0 {
        Seq::empty()
    } else if is_set(bits, i) {
        seq![i as usize] + indices_from(bits, i + 1)
    } else {
        indices_from(bits, i + 1)
    }
}

#[derive(Debug, Copy, Clone, PartialEq, Eq, Structural)]
pub struct Bitboard {
    pub bits: u64,
}

proof fn lemma_get_bit(b: u64, i: u64)
    requires
        i < 64,
    ensures
        (b & (1u64 << i)) >> i == (b >> i) & 1u64,
        (b >> i) & 1u64 == 0u64 || (b >> i) & 1u64 == 1u64,
{
    assert((b & (1u64 << i)) >> i == (b >> i) & 1u64) by (bit_vector)
        requires
            i < 64,
    ;
    assert((b >> i) & 1u64 == 0u64 || (b >> i) & 1u64 == 1u64) by (bit_vector);
}

/// Mirroring twice gives back the original mask, for every 64-bit pattern.
pub proof fn lemma_mirror_involutive(b: u64)
    ensures
        mirror_bits(mirror_bits(b)) == b,
{
    assert(mirror_bits(mirror_bits(b)) == b) by (bit_vector);
}

/// Square `i` of the mirrored mask is square `mirror_index(i)` of the original.
pub proof fn lemma_mirror_has(b: u64, i: int)
    requires
        0 <= i < 64,
    ensures
        is_set(mirror_bits(b), i) == is_set(b, mirror_index(i)),
{
    let m = mirror_bits(b);
    let r = (i / 8) as u64;
    let f = (i % 8) as u64;
    assert(i == r * 8 + f);
    assert(mirror_index(i) == (7 - r) * 8 + f);
    assert(r < 8 && f < 8);
    let s1 = i as u64;
    let s2 = mirror_index(i) as u64;
    assert(((m >> s1) & 1u64) == ((b >> s2) & 1u64)) by (bit_vector)
        requires
            m == mirror_bits(b),
            r < 8,
            f < 8,
            s1 == r * 8 + f,
            s2 == (7 - r) * 8 + f,
    ;
}

impl Bitboard {
    /// 1 when square `index` is set, else 0.
    pub fn get_bit(&self, index: usize) -> (r: u64)
        requires
            index < 64,
        ensures
            r == (if is_set(self.bits, index as int) { 1u64 } else { 0u64 }),
    {
        proof {
            lemma_get_bit(self.bits, index as u64);
        }
        let mask: u64 = 1u64 << index;
        (self.bits & mask) >> index
    }

    pub fn add_piece(&mut self, index: usize)
        requires
            index < 64,
        ensures
            final(self).bits == old(self).bits | (1u64 << index),
    {
        let mask: u64 = 1u64 << index;
        self.bits = self.bits | mask;
    }

    pub fn remove_piece(&mut self, index: usize)
        requires
            index < 64,
        ensures
            final(self).bits == old(self).bits & !(1u64 << index),
    {
        let mask: u64 = 1u64 << index;
        self.bits = self.bits & !mask;
    }

    pub fn move_piece(&mut self, from_index: usize, to_index: usize)
        requires
            from_index < 64,
            to_index < 64,
        ensures
            final(self).bits == (old(self).bits & !(1u64 << from_index)) | (1u64 << to_index),
    {
        self.remove_piece(from_index);
        self.add_piece(to_index);
    }

    /// The board with its ranks reversed: the other side's view of it.
    pub fn mirror(&self) -> (r: Bitboard)
        ensures
            r.bits == mirror_bits(self.bits),
    {
        let b = self.bits;
        let mirrored: u64 = ((b & 0xff) << 56u64) | (((b >> 8u64) & 0xff) << 48u64) | (((b
            >> 16u64) & 0xff) << 40u64) | (((b >> 24u64) & 0xff) << 32u64) | (((b >> 32u64)
            & 0xff) << 24u64) | (((b >> 40u64) & 0xff) << 16u64) | (((b >> 48u64) & 0xff)
            << 8u64) | ((b >> 56u64) & 0xff);
        Bitboard { bits: mirrored }
    }

    pub fn combine_bitboards(bitboards: &[Bitboard]) -> (r: Bitboard)
        ensures
            r.bits == or_all(bitboards@),
    {
        let mut combined: u64 = 0;
        let mut i: usize = 0;
        while i < bitboards.len()
            invariant
                i <= bitboards@.len(),
                combined == or_all(bitboards@.subrange(0, i as int)),
            decreases bitboards.len() - i,
        {
            assert(bitboards@.subrange(0, i as int + 1).drop_last() == bitboards@.subrange(
                0,
                i as int,
            ));
            combined = combined | bitboards[i].bits;
            i += 1;
        }
        assert(bitboards@.subrange(0, i as int) == bitboards@);
        Bitboard { bits: combined }
    }

    pub fn combine_bitboard(&mut self, other: Bitboard)
        ensures
            final(self).bits == old(self).bits | other.bits,
    {
        self.bits = self.bits | other.bits;
    }

    /// The set squares, ascending.
    pub fn get_indices(&self) -> (r: Vec<usize>)
        ensures
            r@ == indices_from(self.bits, 0),
    {
        let mut indices: Vec<usize> = Vec::new();
        let mut index: usize = 0;
        while index < 64
            invariant
                index <= 64,
                indices@ + indices_from(self.bits, index as int) == indices_from(self.bits, 0),
            decreases 64 - index,
        {
            if self.get_bit(index) == 1 {
                indices.push(index);
            }
            index += 1;
        }
        indices
    }

    pub fn count_bits(&self) -> (r: u32)
        ensures
            r as nat == count_from(self.bits, 0),
    {
        let mut count: u32 = 0;
        let mut index: usize = 0;
        while index < 64
            invariant
                index <= 64,
                count <= index,
                count + count_from(self.bits, index as int) == count_from(self.bits, 0),
            decreases 64 - index,
        {
            if self.get_bit(index) == 1 {
                count += 1;
            }
            index += 1;
        }
        count
    }
}

/// The union of the masks of a sequence of boards.
pub open spec fn or_all(s: Seq<Bitboard>) -> u64
    decreases s.len(),
{
    if s.len() == 0 {
        0
    } else {
        or_all(s.drop_last()) | s.last().bits
    }
}

} // verus!

verus! {

/// The squares listed by `indices_from` are set, on the board and at least `i`; there are at
/// most `64 - i` of them.
pub proof fn lemma_indices_from(bits: u64, i: int)
    requires
        0 <= i <= 64,
    ensures
        indices_from(bits, i).len() <= 64 - i,
        forall|k: int|
            0 <= k < indices_from(bits, i).len() ==> i <= #[trigger] indices_from(bits, i)[k]
                < 64 && is_set(bits, indices_from(bits, i)[k] as int),
    decreases 64 - i,
{
    if i < 64 {
        lemma_indices_from(bits, i + 1);
        let rest = indices_from(bits, i + 1);
        if is_set(bits, i) {
            let r = indices_from(bits, i);
            assert(r == seq![i as usize] + rest);
            assert forall|k: int| 0 <= k < r.len() implies i <= #[trigger] r[k] < 64 && is_set(
                bits,
                r[k] as int,
            ) by {
                if k > 0 {
                    assert(r[k] == rest[k - 1]);
                }
            }
        }
    }
}

/// At most 64 squares are set.
pub proof fn lemma_count_from(bits: u64, i: int)
    requires
        0 <= i <= 64,
    ensures
        count_from(bits, i) <= 64 - i,
    decreases 64 - i,
{
    if i < 64 {
        lemma_count_from(bits, i + 1);
    }
}

} // verus!

verus! {

/// Clearing square `i` clears it and keeps every other square.
pub proof fn lemma_clear_bit(b: u64, i: int, j: int)
    requires
        0 <= i < 64,
    ensures
        is_set(b & !(1u64 << (i as u64)), j) == (is_set(b, j) && j != i),
{
    if 0 <= j < 64 {
        let iu = i as u64;
        let ju = j as u64;
        assert((((b & !(1u64 << iu)) >> ju) & 1u64 == 1u64) == (((b >> ju) & 1u64 == 1u64)
            && ju != iu)) by (bit_vector)
            requires
                iu < 64,
                ju < 64,
        ;
    }
}

/// Setting square `i` sets it and keeps every other square.
pub proof fn lemma_set_bit(b: u64, i: int, j: int)
    requires
        0 <= i < 64,
    ensures
        is_set(b | (1u64 << (i as u64)), j) == (is_set(b, j) || (j == i)),
{
    if 0 <= j < 64 {
        let iu = i as u64;
        let ju = j as u64;
        assert((((b | (1u64 << iu)) >> ju) & 1u64 == 1u64) == (((b >> ju) & 1u64 == 1u64) || ju
            == iu)) by (bit_vector)
            requires
                iu < 64,
                ju < 64,
        ;
    }
}

/// A square of the union is a square of either mask; a square of a mask outside `m` is
/// outside every mask disjoint from it within `m`.
pub proof fn lemma_or_and(a: u64, b: u64, m: u64, j: int)
    requires
        0 <= j < 64,
    ensures
        is_set(a | b, j) == (is_set(a, j) || is_set(b, j)),
        a & b == 0 && is_set(b, j) ==> !is_set(a, j),
        (a | b) & m == 0 && is_set(m, j) ==> !is_set(a, j) && !is_set(b, j),
{
    let ju = j as u64;
    assert((((a | b) >> ju) & 1u64 == 1u64) == (((a >> ju) & 1u64 == 1u64) || ((b >> ju) & 1u64
        == 1u64))) by (bit_vector)
        requires
            ju < 64,
    ;
    assert(a & b == 0 && (b >> ju) & 1u64 == 1u64 ==> (a >> ju) & 1u64 != 1u64) by (bit_vector)
        requires
            ju < 64,
    ;
    assert((a | b) & m == 0 && (m >> ju) & 1u64 == 1u64 ==> (a >> ju) & 1u64 != 1u64 && (b
        >> ju) & 1u64 != 1u64) by (bit_vector)
        requires
            ju < 64,
    ;
}

/// Two masks that agree on every square but `i`, which only the second holds, differ by one
/// in their counts from any `k <= i`.
pub proof fn lemma_count_one_less(b1: u64, b2: u64, i: int, k: int)
    requires
        0 <= k <= 64,
        0 <= i < 64,
        forall|j: int| 0 <= j < 64 && j != i ==> is_set(b1, j) == is_set(b2, j),
        is_set(b2, i),
        !is_set(b1, i),
    ensures
        count_from(b1, k) + (if k <= i {
            1int
        } else {
            0int
        }) == count_from(b2, k),
    decreases 64 - k,
{
    if k < 64 {
        lemma_count_one_less(b1, b2, i, k + 1);
    }
}

} // verus!
