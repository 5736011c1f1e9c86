use vstd::prelude::*;
use crate::bitboard::{Bitboard, is_set};

verus! {

/// The squares of file `f` (A = 0).
pub open spec fn file_mask(f: int) -> u64 {
    if f == 0 {
        0x0101010101010101
    } else if f == 1 {
        0x0202020202020202
    } else if f == 2 {
        0x0404040404040404
    } else if f == 3 {
        0x0808080808080808
    } else if f == 4 {
        0x1010101010101010
    } else if f == 5 {
        0x2020202020202020
    } else if f == 6 {
        0x4040404040404040
    } else {
        0x8080808080808080
    }
}

pub open spec fn has_file(bits: u64, f: int) -> bool {
    bits & file_mask(f) != 0
}

/// Number of pawn islands among files `0..f`: files with a pawn whose left neighbour has none.
pub open spec fn islands(bits: u64, f: int) -> int
    decreases f,
{
    if f <= 0 {
        0
    } else {
        islands(bits, f - 1) + if has_file(bits, f - 1) && (f - 1 == 0 || !has_file(bits, f - 2)) {
            1int
        } else {
            0int
        }
    }
}

/// Number of pawns on file `f` among ranks `0..r`.
pub open spec fn file_count(bits: u64, f: int, r: int) -> int
    decreases r,
{
    if r <= 0 {
        0
    } else {
        file_count(bits, f, r - 1) + if is_set(bits, f + (r - 1) * 8) {
            1int
        } else {
            0int
        }
    }
}

/// Number of files among `0..f` holding more than one pawn (doubled pawns).
pub open spec fn doubled_files(bits: u64, f: int) -> int
    decreases f,
{
    if f <= 0 {
        0
    } else {
        doubled_files(bits, f - 1) + if file_count(bits, f - 1, 8) > 1 {
            1int
        } else {
            0int
        }
    }
}

/// File `f` holds a pawn and neither neighbouring file does.
pub open spec fn isolated(bits: u64, f: int) -> bool {
    has_file(bits, f) && (f == 0 || !has_file(bits, f - 1)) && (f == 7 || !has_file(bits, f + 1))
}

/// Number of files among `0..f` with an isolated pawn.
pub open spec fn isolated_files(bits: u64, f: int) -> int
    decreases f,
{
    if f <= 0 {
        0
    } else {
        isolated_files(bits, f - 1) + if isolated(bits, f - 1) {
            1int
        } else {
            0int
        }
    }
}

/// The sum of the squares of the lengths of the runs of pawns on file `f`, from rank `r`
/// on, a run of length `run` being open below rank `r`.
pub open spec fn file_chains(bits: u64, f: int, r: int, run: int) -> int
    decreases 8 - r,
{
    if r >= 8 {
        run * run
    } else if is_set(bits, f + r * 8) {
        file_chains(bits, f, r + 1, run + 1)
    } else {
        run * run + file_chains(bits, f, r + 1, 0)
    }
}

pub open spec fn chains(bits: u64, f: int) -> int
    decreases f,
{
    if f <= 0 {
        0
    } else {
        chains(bits, f - 1) + file_chains(bits, f - 1, 0, 0)
    }
}

/// The pawn-structure score: 20 off per island, 10 off per file with doubled pawns, 20 off
/// per file with an isolated pawn, plus the squared lengths of the runs of pawns along each
/// file.
pub open spec fn pawn_structure(bits: u64) -> int {
    -20 * islands(bits, 8) - 10 * doubled_files(bits, 8) - 20 * isolated_files(bits, 8) + chains(
        bits,
        8,
    )
}

proof fn lemma_file_chains_bounded(bits: u64, f: int, r: int, run: int)
    requires
        0 <= r <= 8,
        0 <= run,
    ensures
        0 <= file_chains(bits, f, r, run) <= (run + 8 - r) * (run + 8 - r),
        file_chains(bits, f, r, run) >= if r < 8 && !is_set(bits, f + r * 8) {
            run * run
        } else {
            0
        },
    decreases 8 - r,
{
    if r < 8 {
        if is_set(bits, f + r * 8) {
            lemma_file_chains_bounded(bits, f, r + 1, run + 1);
        } else {
            lemma_file_chains_bounded(bits, f, r + 1, 0);
            assert(run * run + (8 - r - 1) * (8 - r - 1) <= (run + 8 - r) * (run + 8 - r))
                by (nonlinear_arith)
                requires
                    0 <= run,
                    r < 8,
            ;
            assert(run * run >= 0) by (nonlinear_arith);
        }
    } else {
        assert(run * run >= 0) by (nonlinear_arith);
    }
}

impl Bitboard {
    /// Scores the pawn structure of this board; see `pawn_structure`.
    pub fn evaluate_pawn_structure(&self) -> (r: isize)
        ensures
            r == pawn_structure(self.bits),
    {
        let file_masks: [u64; 8] = [
            0x0101010101010101,
            0x0202020202020202,
            0x0404040404040404,
            0x0808080808080808,
            0x1010101010101010,
            0x2020202020202020,
            0x4040404040404040,
            0x8080808080808080,
        ];
        assert(forall|f: int| 0 <= f < 8 ==> #[trigger] file_masks@[f] == file_mask(f));
        let bits = self.bits;

        let mut previous_file_has_pawn = false;
        let mut pawn_islands: isize = 0;
        let mut file: usize = 0;
        while file < 8
            invariant
                file <= 8,
                forall|f: int| 0 <= f < 8 ==> #[trigger] file_masks@[f] == file_mask(f),
                pawn_islands == islands(bits, file as int),
                0 <= pawn_islands <= file,
                file > 0 ==> previous_file_has_pawn == has_file(bits, file - 1),
                file == 0 ==> !previous_file_has_pawn,
            decreases 8 - file,
        {
            let current_file_has_pawn = (bits & file_masks[file]) != 0;
            if current_file_has_pawn && !previous_file_has_pawn {
                pawn_islands += 1;
            }
            previous_file_has_pawn = current_file_has_pawn;
            file += 1;
        }
        let mut score: isize = -20 * pawn_islands;

        let mut doubled: isize = 0;
        let mut file: usize = 0;
        while file < 8
            invariant
                file <= 8,
                bits == self.bits,
                doubled == doubled_files(bits, file as int),
                0 <= doubled <= file,
            decreases 8 - file,
        {
            let mut pawns_on_file: isize = 0;
            let mut rank: usize = 0;
            while rank < 8
                invariant
                    rank <= 8,
                    file < 8,
                    bits == self.bits,
                    pawns_on_file == file_count(bits, file as int, rank as int),
                    0 <= pawns_on_file <= rank,
                decreases 8 - rank,
            {
                if self.get_bit(file + rank * 8) == 1 {
                    pawns_on_file += 1;
                }
                assert(file_count(bits, file as int, rank + 1) == file_count(
                    bits,
                    file as int,
                    rank as int,
                ) + if is_set(bits, file + rank * 8) {
                    1int
                } else {
                    0int
                });
                rank += 1;
            }
            if pawns_on_file > 1 {
                doubled += 1;
            }
            file += 1;
        }
        score = score - 10 * doubled;

        let mut isolated_count: isize = 0;
        let mut file: usize = 0;
        while file < 8
            invariant
                file <= 8,
                forall|f: int| 0 <= f < 8 ==> #[trigger] file_masks@[f] == file_mask(f),
                isolated_count == isolated_files(bits, file as int),
                0 <= isolated_count <= file,
            decreases 8 - file,
        {
            let here = (bits & file_masks[file]) != 0;
            let left = file > 0 && (bits & file_masks[file - 1]) != 0;
            let right = file < 7 && (bits & file_masks[file + 1]) != 0;
            if here && !left && !right {
                isolated_count += 1;
            }
            file += 1;
        }
        score = score - 20 * isolated_count;

        let mut total_chain_length: isize = 0;
        let mut file: usize = 0;
        while file < 8
            invariant
                file <= 8,
                bits == self.bits,
                total_chain_length == chains(bits, file as int),
                0 <= total_chain_length <= file * 64,
            decreases 8 - file,
        {
            let mut current_chain_length: isize = 0;
            let mut rank: usize = 0;
            let mut acc: isize = 0;
            proof {
                lemma_file_chains_bounded(bits, file as int, 0, 0);
                let v = file_chains(bits, file as int, 0, 0);
                assert(v <= 64) by (nonlinear_arith)
                    requires
                        v <= (0int + 8 - 0int) * (0int + 8 - 0int),
                ;
            }
            while rank < 8
                invariant
                    rank <= 8,
                    file < 8,
                    0 <= current_chain_length <= rank,
                    0 <= acc,
                    bits == self.bits,
                    file_chains(bits, file as int, 0, 0) <= 64,
                    acc + file_chains(bits, file as int, rank as int, current_chain_length as int)
                        == file_chains(bits, file as int, 0, 0),
                decreases 8 - rank,
            {
                proof {
                    lemma_file_chains_bounded(
                        bits,
                        file as int,
                        rank as int,
                        current_chain_length as int,
                    );
                }
                if self.get_bit(file + rank * 8) == 1 {
                    current_chain_length += 1;
                } else if current_chain_length > 0 {
                    proof {
                        lemma_file_chains_bounded(bits, file as int, rank as int + 1, 0);
                        let c = current_chain_length as int;
                        assert(0 <= c * c <= 64) by (nonlinear_arith)
                            requires
                                0 <= c <= 8,
                        ;
                    }
                    acc += current_chain_length * current_chain_length;
                    current_chain_length = 0;
                }
                rank += 1;
            }
            proof {
                let c = current_chain_length as int;
                assert(0 <= c * c <= 64) by (nonlinear_arith)
                    requires
                        0 <= c <= 8,
                ;
            }
            if current_chain_length > 0 {
                acc += current_chain_length * current_chain_length;
            }
            total_chain_length += acc;
            file += 1;
        }
        score + total_chain_length
    }
}

} // verus!
