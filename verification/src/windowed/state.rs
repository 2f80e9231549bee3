//! The windowed game state for the 20x20 board.
//!
//! Holds one pair of windowed grids per player and a bit-set
//! inventory.  Move enumeration tests each remaining piece pattern
//! against all 400 windows; the two 5-long straight pieces are derived
//! from 4-long matches by the two extension checks.

use super::piece::{bit16, bit8, pcell16, Piece};
use super::subsquares::{log_bit, move_anchor_index, win_ok, Subsquares};
use crate::state::{distinct_seq, lemma_add_contains, lemma_distinct_add};
use crate::utils::Player;
use vstd::prelude::*;

pub use super::subsquares::Move;

verus! {

/// Whether bit `i` of an inventory bit-set is still set.
pub open spec fn avail_bit(pp: u128, i: int) -> bool {
    (pp >> (i as u128)) & 1 == 1
}

/// The exclusion bit of a cell, everything beyond the board edge
/// reading as occupied.
pub open spec fn occz(occ: Seq<u16>, x: int, y: int) -> bool {
    if 0 <= x < 20 && 0 <= y < 20 {
        log_bit(occ, x, y)
    } else {
        true
    }
}

/// The near-end extension of a 4-long horizontal match at `(x, y)`:
/// the anchor is a corner hit and the cell past the far end is free,
/// so the 5-long piece also starts at `(x, y)`.
pub open spec fn ext_wide_near(occ: Seq<u16>, cor: Seq<u16>, x: int, y: int) -> bool {
    log_bit(cor, x, y) && !occz(occ, x + 4, y)
}

/// The far-end extension of a 4-long horizontal match at `(x, y)`:
/// the far end is a corner hit and the cell before the near end is
/// free, so the 5-long piece starts one cell earlier.  Independent of
/// the near-end check: a match whose both ends extend yields two
/// moves.
pub open spec fn ext_wide_far(occ: Seq<u16>, cor: Seq<u16>, x: int, y: int) -> bool {
    log_bit(cor, x + 3, y) && x > 0 && !occz(occ, x - 1, y)
}

/// The near-end extension of a 4-long vertical match at `(x, y)`.
pub open spec fn ext_tall_near(occ: Seq<u16>, cor: Seq<u16>, x: int, y: int) -> bool {
    log_bit(cor, x, y) && !occz(occ, x, y + 4)
}

/// The far-end extension of a 4-long vertical match at `(x, y)`,
/// independent of the near-end check.
pub open spec fn ext_tall_far(occ: Seq<u16>, cor: Seq<u16>, x: int, y: int) -> bool {
    log_bit(cor, x, y + 3) && y > 0 && !occz(occ, x, y - 1)
}

/// Two windows sharing a set bit meet.
pub proof fn lemma_u16_and_bit(a: u16, b: u16, s: u16)
    by (bit_vector)
    requires
        s < 16,
        (a >> s) & 1 == 1,
        (b >> s) & 1 == 1,
    ensures
        a & b != 0,
{
}

/// Bits of the two straight 4-long piece rows, and of a full
/// inventory.
pub proof fn lemma_catalog_bits(i: u128)
    by (bit_vector)
    requires
        i < 128,
    ensures
        (0b1111u8 >> 3) & 1 == 1,
        (0b1u8 >> 0) & 1 == 1,
        1u128 << 90 >= 1,
        i < 90 ==> ((((1u128 << 90) - 1) as u128) >> i) & 1 == 1,
        i >= 90 ==> ((((1u128 << 90) - 1) as u128) >> i) & 1 == 0,
{
}

/// Abstracted function to get the tile count of the piece a move
/// places.
pub fn piece_size(mv: &Move) -> (r: usize)
    requires
        mv.piece <= 90,
    ensures
        r == piece_size_spec(mv.piece as int),
{
    if mv.piece == 0 {
        1
    } else if mv.piece <= 2 {
        2
    } else if mv.piece <= 8 {
        3
    } else if mv.piece <= 27 {
        4
    } else {
        5
    }
}

/// The tile count of a piece pattern, read off the catalog layout.
pub open spec fn piece_size_spec(piece: int) -> int {
    if piece == 0 {
        1
    } else if piece <= 2 {
        2
    } else if piece <= 8 {
        3
    } else if piece <= 27 {
        4
    } else {
        5
    }
}

/// The inventory masks of the catalog, written out.
proof fn lemma_wcat_masks()
    by (bit_vector)
    ensures
        0b1u128 == 0x1,
        (0b11u128 << 1) == 0x6,
        (0b11u128 << 3) == 0x18,
        (0b1111u128 << 5) == 0x1e0,
        (0b11u128 << 9) == 0x600,
        (0b11111111u128 << 11) == 0x7f800,
        (0b1111u128 << 19) == 0x780000,
        (0b1111u128 << 23) == 0x7800000,
        (0b1u128 << 27) == 0x8000000,
        (0b11111111u128 << 28) == 0xff0000000,
        (0b11111111u128 << 36) == 0xff000000000,
        (0b11111111u128 << 44) == 0xff00000000000,
        (0b11111111u128 << 52) == 0xff0000000000000,
        (0b1111u128 << 60) == 0xf000000000000000,
        (0b1111u128 << 64) == 0xf0000000000000000,
        (0b1111u128 << 68) == 0xf00000000000000000,
        (0b1111u128 << 72) == 0xf000000000000000000,
        (0b1u128 << 76) == 0x10000000000000000000,
        (0b11111111u128 << 77) == 0x1fe0000000000000000000,
        (0b1111u128 << 85) == 0x1e000000000000000000000,
{
}

/// The catalog table of the windowed engine: bounding box, inventory
/// mask and occupancy rows of pattern `i`.
pub open spec fn wcat(i: int) -> (int, int, u128, Seq<u8>) {
    if i == 0 {
        (1, 1, 0x1u128, seq![0b1u8, 0u8, 0u8, 0u8])
    } else if i == 1 {
        (2, 1, 0x6u128, seq![0b11u8, 0u8, 0u8, 0u8])
    } else if i == 2 {
        (1, 2, 0x6u128, seq![0b1u8, 0b1u8, 0u8, 0u8])
    } else if i == 3 {
        (3, 1, 0x18u128, seq![0b111u8, 0u8, 0u8, 0u8])
    } else if i == 4 {
        (1, 3, 0x18u128, seq![0b1u8, 0b1u8, 0b1u8, 0u8])
    } else if i == 5 {
        (2, 2, 0x1e0u128, seq![0b11u8, 0b1u8, 0u8, 0u8])
    } else if i == 6 {
        (2, 2, 0x1e0u128, seq![0b11u8, 0b10u8, 0u8, 0u8])
    } else if i == 7 {
        (2, 2, 0x1e0u128, seq![0b1u8, 0b11u8, 0u8, 0u8])
    } else if i == 8 {
        (2, 2, 0x1e0u128, seq![0b10u8, 0b11u8, 0u8, 0u8])
    } else if i == 9 {
        (4, 1, 0x600u128, seq![0b1111u8, 0u8, 0u8, 0u8])
    } else if i == 10 {
        (1, 4, 0x600u128, seq![0b1u8, 0b1u8, 0b1u8, 0b1u8])
    } else if i == 11 {
        (3, 2, 0x7f800u128, seq![0b111u8, 0b1u8, 0u8, 0u8])
    } else if i == 12 {
        (3, 2, 0x7f800u128, seq![0b111u8, 0b100u8, 0u8, 0u8])
    } else if i == 13 {
        (3, 2, 0x7f800u128, seq![0b1u8, 0b111u8, 0u8, 0u8])
    } else if i == 14 {
        (3, 2, 0x7f800u128, seq![0b100u8, 0b111u8, 0u8, 0u8])
    } else if i == 15 {
        (2, 3, 0x7f800u128, seq![0b11u8, 0b10u8, 0b10u8, 0u8])
    } else if i == 16 {
        (2, 3, 0x7f800u128, seq![0b11u8, 0b1u8, 0b1u8, 0u8])
    } else if i == 17 {
        (2, 3, 0x7f800u128, seq![0b1u8, 0b1u8, 0b11u8, 0u8])
    } else if i == 18 {
        (2, 3, 0x7f800u128, seq![0b10u8, 0b10u8, 0b11u8, 0u8])
    } else if i == 19 {
        (3, 2, 0x780000u128, seq![0b110u8, 0b011u8, 0u8, 0u8])
    } else if i == 20 {
        (3, 2, 0x780000u128, seq![0b011u8, 0b110u8, 0u8, 0u8])
    } else if i == 21 {
        (2, 3, 0x780000u128, seq![0b10u8, 0b11u8, 0b01u8, 0u8])
    } else if i == 22 {
        (2, 3, 0x780000u128, seq![0b01u8, 0b11u8, 0b10u8, 0u8])
    } else if i == 23 {
        (3, 2, 0x7800000u128, seq![0b111u8, 0b010u8, 0u8, 0u8])
    } else if i == 24 {
        (3, 2, 0x7800000u128, seq![0b010u8, 0b111u8, 0u8, 0u8])
    } else if i == 25 {
        (2, 3, 0x7800000u128, seq![0b10u8, 0b11u8, 0b10u8, 0u8])
    } else if i == 26 {
        (2, 3, 0x7800000u128, seq![0b01u8, 0b11u8, 0b01u8, 0u8])
    } else if i == 27 {
        (2, 2, 0x8000000u128, seq![0b11u8, 0b11u8, 0u8, 0u8])
    } else if i == 28 {
        (3, 3, 0xff0000000u128, seq![0b110u8, 0b011u8, 0b010u8, 0u8])
    } else if i == 29 {
        (3, 3, 0xff0000000u128, seq![0b011u8, 0b110u8, 0b010u8, 0u8])
    } else if i == 30 {
        (3, 3, 0xff0000000u128, seq![0b010u8, 0b110u8, 0b011u8, 0u8])
    } else if i == 31 {
        (3, 3, 0xff0000000u128, seq![0b010u8, 0b011u8, 0b110u8, 0u8])
    } else if i == 32 {
        (3, 3, 0xff0000000u128, seq![0b010u8, 0b111u8, 0b001u8, 0u8])
    } else if i == 33 {
        (3, 3, 0xff0000000u128, seq![0b001u8, 0b111u8, 0b010u8, 0u8])
    } else if i == 34 {
        (3, 3, 0xff0000000u128, seq![0b010u8, 0b111u8, 0b100u8, 0u8])
    } else if i == 35 {
        (3, 3, 0xff0000000u128, seq![0b100u8, 0b111u8, 0b010u8, 0u8])
    } else if i == 36 {
        (4, 2, 0xff000000000u128, seq![0b1111u8, 0b0001u8, 0u8, 0u8])
    } else if i == 37 {
        (4, 2, 0xff000000000u128, seq![0b1111u8, 0b1000u8, 0u8, 0u8])
    } else if i == 38 {
        (4, 2, 0xff000000000u128, seq![0b1000u8, 0b1111u8, 0u8, 0u8])
    } else if i == 39 {
        (4, 2, 0xff000000000u128, seq![0b0001u8, 0b1111u8, 0u8, 0u8])
    } else if i == 40 {
        (2, 4, 0xff000000000u128, seq![0b11u8, 0b10u8, 0b10u8, 0b10u8])
    } else if i == 41 {
        (2, 4, 0xff000000000u128, seq![0b11u8, 0b01u8, 0b01u8, 0b01u8])
    } else if i == 42 {
        (2, 4, 0xff000000000u128, seq![0b10u8, 0b10u8, 0b10u8, 0b11u8])
    } else if i == 43 {
        (2, 4, 0xff000000000u128, seq![0b01u8, 0b01u8, 0b01u8, 0b11u8])
    } else if i == 44 {
        (4, 2, 0xff00000000000u128, seq![0b1110u8, 0b0011u8, 0b0u8, 0u8])
    } else if i == 45 {
        (4, 2, 0xff00000000000u128, seq![0b0111u8, 0b1100u8, 0b0u8, 0u8])
    } else if i == 46 {
        (4, 2, 0xff00000000000u128, seq![0b0011u8, 0b1110u8, 0b0u8, 0u8])
    } else if i == 47 {
        (4, 2, 0xff00000000000u128, seq![0b1100u8, 0b0111u8, 0b0u8, 0u8])
    } else if i == 48 {
        (2, 4, 0xff00000000000u128, seq![0b10u8, 0b10u8, 0b11u8, 0b01u8])
    } else if i == 49 {
        (2, 4, 0xff00000000000u128, seq![0b01u8, 0b01u8, 0b11u8, 0b10u8])
    } else if i == 50 {
        (2, 4, 0xff00000000000u128, seq![0b10u8, 0b11u8, 0b01u8, 0b01u8])
    } else if i == 51 {
        (2, 4, 0xff00000000000u128, seq![0b01u8, 0b11u8, 0b10u8, 0b10u8])
    } else if i == 52 {
        (3, 2, 0xff0000000000000u128, seq![0b110u8, 0b111u8, 0u8, 0u8])
    } else if i == 53 {
        (3, 2, 0xff0000000000000u128, seq![0b111u8, 0b110u8, 0u8, 0u8])
    } else if i == 54 {
        (3, 2, 0xff0000000000000u128, seq![0b011u8, 0b111u8, 0u8, 0u8])
    } else if i == 55 {
        (3, 2, 0xff0000000000000u128, seq![0b111u8, 0b011u8, 0u8, 0u8])
    } else if i == 56 {
        (2, 3, 0xff0000000000000u128, seq![0b11u8, 0b11u8, 0b01u8, 0u8])
    } else if i == 57 {
        (2, 3, 0xff0000000000000u128, seq![0b11u8, 0b11u8, 0b10u8, 0u8])
    } else if i == 58 {
        (2, 3, 0xff0000000000000u128, seq![0b01u8, 0b11u8, 0b11u8, 0u8])
    } else if i == 59 {
        (2, 3, 0xff0000000000000u128, seq![0b10u8, 0b11u8, 0b11u8, 0u8])
    } else if i == 60 {
        (3, 3, 0xf000000000000000u128, seq![0b111u8, 0b010u8, 0b010u8, 0u8])
    } else if i == 61 {
        (3, 3, 0xf000000000000000u128, seq![0b010u8, 0b010u8, 0b111u8, 0u8])
    } else if i == 62 {
        (3, 3, 0xf000000000000000u128, seq![0b001u8, 0b111u8, 0b001u8, 0u8])
    } else if i == 63 {
        (3, 3, 0xf000000000000000u128, seq![0b100u8, 0b111u8, 0b100u8, 0u8])
    } else if i == 64 {
        (3, 2, 0xf0000000000000000u128, seq![0b101u8, 0b111u8, 0u8, 0u8])
    } else if i == 65 {
        (3, 2, 0xf0000000000000000u128, seq![0b111u8, 0b101u8, 0u8, 0u8])
    } else if i == 66 {
        (2, 3, 0xf0000000000000000u128, seq![0b11u8, 0b10u8, 0b11u8, 0u8])
    } else if i == 67 {
        (2, 3, 0xf0000000000000000u128, seq![0b11u8, 0b01u8, 0b11u8, 0u8])
    } else if i == 68 {
        (3, 3, 0xf00000000000000000u128, seq![0b100u8, 0b100u8, 0b111u8, 0u8])
    } else if i == 69 {
        (3, 3, 0xf00000000000000000u128, seq![0b001u8, 0b001u8, 0b111u8, 0u8])
    } else if i == 70 {
        (3, 3, 0xf00000000000000000u128, seq![0b111u8, 0b100u8, 0b100u8, 0u8])
    } else if i == 71 {
        (3, 3, 0xf00000000000000000u128, seq![0b111u8, 0b001u8, 0b001u8, 0u8])
    } else if i == 72 {
        (3, 3, 0xf000000000000000000u128, seq![0b100u8, 0b110u8, 0b011u8, 0u8])
    } else if i == 73 {
        (3, 3, 0xf000000000000000000u128, seq![0b011u8, 0b110u8, 0b100u8, 0u8])
    } else if i == 74 {
        (3, 3, 0xf000000000000000000u128, seq![0b001u8, 0b011u8, 0b110u8, 0u8])
    } else if i == 75 {
        (3, 3, 0xf000000000000000000u128, seq![0b110u8, 0b011u8, 0b001u8, 0u8])
    } else if i == 76 {
        (3, 3, 0x10000000000000000000u128, seq![0b010u8, 0b111u8, 0b010u8, 0u8])
    } else if i == 77 {
        (4, 2, 0x1fe0000000000000000000u128, seq![0b1111u8, 0b0010u8, 0u8, 0u8])
    } else if i == 78 {
        (4, 2, 0x1fe0000000000000000000u128, seq![0b1111u8, 0b0100u8, 0u8, 0u8])
    } else if i == 79 {
        (4, 2, 0x1fe0000000000000000000u128, seq![0b0010u8, 0b1111u8, 0u8, 0u8])
    } else if i == 80 {
        (4, 2, 0x1fe0000000000000000000u128, seq![0b0100u8, 0b1111u8, 0u8, 0u8])
    } else if i == 81 {
        (2, 4, 0x1fe0000000000000000000u128, seq![0b01u8, 0b01u8, 0b11u8, 0b01u8])
    } else if i == 82 {
        (2, 4, 0x1fe0000000000000000000u128, seq![0b01u8, 0b11u8, 0b01u8, 0b01u8])
    } else if i == 83 {
        (2, 4, 0x1fe0000000000000000000u128, seq![0b10u8, 0b10u8, 0b11u8, 0b10u8])
    } else if i == 84 {
        (2, 4, 0x1fe0000000000000000000u128, seq![0b10u8, 0b11u8, 0b10u8, 0b10u8])
    } else if i == 85 {
        (3, 3, 0x1e000000000000000000000u128, seq![0b110u8, 0b010u8, 0b011u8, 0u8])
    } else if i == 86 {
        (3, 3, 0x1e000000000000000000000u128, seq![0b011u8, 0b010u8, 0b110u8, 0u8])
    } else if i == 87 {
        (3, 3, 0x1e000000000000000000000u128, seq![0b001u8, 0b111u8, 0b100u8, 0u8])
    } else {
        (3, 3, 0x1e000000000000000000000u128, seq![0b100u8, 0b111u8, 0b001u8, 0u8])
    }
}

/// Catalog entry `i` holds exactly the pattern of the table: its
/// bounding box, its inventory mask, and its packed occupancy cell by
/// cell.
#[verifier::opaque]
pub open spec fn wentry(pc: Piece, i: int) -> bool {
    &&& pc.width as int == wcat(i).0
    &&& pc.height as int == wcat(i).1
    &&& pc.id_mask == wcat(i).2
    &&& forall|x: int, y: int|
        0 <= x < 4 && 0 <= y < 4 ==> (#[trigger] bit16(pc.as_u16, 4 * y + x)
            == super::piece::pcell(wcat(i).3, wcat(i).0, wcat(i).1, x, y))
}

/// Every entry of a catalog sequence is the table's pattern.
pub open spec fn catalog_pinned(cat: Seq<Piece>) -> bool {
    cat.len() == 89 && forall|i: int| 0 <= i < 89 ==> wentry(#[trigger] cat[i], i)
}

/// The catalog of all 89 piece patterns that fit a 4x4 box: every
/// distinct dihedral transform of the 21 base pieces except the
/// 5-long straight, grouped so that all transforms of one base piece
/// share an inventory bit.
#[verifier::rlimit(100)]
#[verifier::spinoff_prover]
pub fn windowed_catalog() -> (r: Vec<Piece>)
    ensures
        r@.len() == 89,
        catalog_pinned(r@),
        forall|i: int| 0 <= i < 89 ==> (#[trigger] r@[i]).wf(),
        r@[9].width == 4 && r@[9].height == 1,
        r@[10].width == 1 && r@[10].height == 4,
        bit16(r@[9].as_u16, 3),
        bit16(r@[10].as_u16, 12),
{
    proof {
        lemma_wcat_masks();
    }
    let mut v: Vec<Piece> = Vec::new();
    let q0 = Piece::new(1, 1, 0b1, [0b1, 0, 0, 0]);
    proof {
        reveal(wentry);
        assert(wentry(q0, 0)) by {
            reveal(wentry);
            assert forall|x: int, y: int|
                0 <= x < 4 && 0 <= y < 4 implies (#[trigger] bit16(q0.as_u16, 4 * y + x)
                == super::piece::pcell(wcat(0).3, wcat(0).0, wcat(0).1, x, y)) by {
                assert(wcat(0).3 =~= seq![0b1u8, 0u8, 0u8, 0u8]);
            }
        }
    }
    v.push(q0);
    let q1 = Piece::new(2, 1, 0b11 << 1, [0b11, 0, 0, 0]);
    proof {
        reveal(wentry);
        assert(wentry(q1, 1)) by {
            reveal(wentry);
            assert forall|x: int, y: int|
                0 <= x < 4 && 0 <= y < 4 implies (#[trigger] bit16(q1.as_u16, 4 * y + x)
                == super::piece::pcell(wcat(1).3, wcat(1).0, wcat(1).1, x, y)) by {
                assert(wcat(1).3 =~= seq![0b11u8, 0u8, 0u8, 0u8]);
            }
        }
    }
    v.push(q1);
    let q2 = Piece::new(1, 2, 0b11 << 1, [0b1, 0b1, 0, 0]);
    proof {
        reveal(wentry);
        assert(wentry(q2, 2)) by {
            reveal(wentry);
            assert forall|x: int, y: int|
                0 <= x < 4 && 0 <= y < 4 implies (#[trigger] bit16(q2.as_u16, 4 * y + x)
                == super::piece::pcell(wcat(2).3, wcat(2).0, wcat(2).1, x, y)) by {
                assert(wcat(2).3 =~= seq![0b1u8, 0b1u8, 0u8, 0u8]);
            }
        }
    }
    v.push(q2);
    let q3 = Piece::new(3, 1, 0b11 << 3, [0b111, 0, 0, 0]);
    proof {
        reveal(wentry);
        assert(wentry(q3, 3)) by {
            reveal(wentry);
            assert forall|x: int, y: int|
                0 <= x < 4 && 0 <= y < 4 implies (#[trigger] bit16(q3.as_u16, 4 * y + x)
                == super::piece::pcell(wcat(3).3, wcat(3).0, wcat(3).1, x, y)) by {
                assert(wcat(3).3 =~= seq![0b111u8, 0u8, 0u8, 0u8]);
            }
        }
    }
    v.push(q3);
    let q4 = Piece::new(1, 3, 0b11 << 3, [0b1, 0b1, 0b1, 0]);
    proof {
        reveal(wentry);
        assert(wentry(q4, 4)) by {
            reveal(wentry);
            assert forall|x: int, y: int|
                0 <= x < 4 && 0 <= y < 4 implies (#[trigger] bit16(q4.as_u16, 4 * y + x)
                == super::piece::pcell(wcat(4).3, wcat(4).0, wcat(4).1, x, y)) by {
                assert(wcat(4).3 =~= seq![0b1u8, 0b1u8, 0b1u8, 0u8]);
            }
        }
    }
    v.push(q4);
    let q5 = Piece::new(2, 2, 0b1111 << 5, [0b11, 0b1, 0, 0]);
    proof {
        reveal(wentry);
        assert(wentry(q5, 5)) by {
            reveal(wentry);
            assert forall|x: int, y: int|
                0 <= x < 4 && 0 <= y < 4 implies (#[trigger] bit16(q5.as_u16, 4 * y + x)
                == super::piece::pcell(wcat(5).3, wcat(5).0, wcat(5).1, x, y)) by {
                assert(wcat(5).3 =~= seq![0b11u8, 0b1u8, 0u8, 0u8]);
            }
        }
    }
    v.push(q5);
    let q6 = Piece::new(2, 2, 0b1111 << 5, [0b11, 0b10, 0, 0]);
    proof {
        reveal(wentry);
        assert(wentry(q6, 6)) by {
            reveal(wentry);
            assert forall|x: int, y: int|
                0 <= x < 4 && 0 <= y < 4 implies (#[trigger] bit16(q6.as_u16, 4 * y + x)
                == super::piece::pcell(wcat(6).3, wcat(6).0, wcat(6).1, x, y)) by {
                assert(wcat(6).3 =~= seq![0b11u8, 0b10u8, 0u8, 0u8]);
            }
        }
    }
    v.push(q6);
    let q7 = Piece::new(2, 2, 0b1111 << 5, [0b1, 0b11, 0, 0]);
    proof {
        reveal(wentry);
        assert(wentry(q7, 7)) by {
            reveal(wentry);
            assert forall|x: int, y: int|
                0 <= x < 4 && 0 <= y < 4 implies (#[trigger] bit16(q7.as_u16, 4 * y + x)
                == super::piece::pcell(wcat(7).3, wcat(7).0, wcat(7).1, x, y)) by {
                assert(wcat(7).3 =~= seq![0b1u8, 0b11u8, 0u8, 0u8]);
            }
        }
    }
    v.push(q7);
    let q8 = Piece::new(2, 2, 0b1111 << 5, [0b10, 0b11, 0, 0]);
    proof {
        reveal(wentry);
        assert(wentry(q8, 8)) by {
            reveal(wentry);
            assert forall|x: int, y: int|
                0 <= x < 4 && 0 <= y < 4 implies (#[trigger] bit16(q8.as_u16, 4 * y + x)
                == super::piece::pcell(wcat(8).3, wcat(8).0, wcat(8).1, x, y)) by {
                assert(wcat(8).3 =~= seq![0b10u8, 0b11u8, 0u8, 0u8]);
            }
        }
    }
    v.push(q8);
    let q9 = Piece::new(4, 1, 0b11 << 9, [0b1111, 0, 0, 0]);
    proof {
        reveal(wentry);
        assert(wentry(q9, 9)) by {
            reveal(wentry);
            assert forall|x: int, y: int|
                0 <= x < 4 && 0 <= y < 4 implies (#[trigger] bit16(q9.as_u16, 4 * y + x)
                == super::piece::pcell(wcat(9).3, wcat(9).0, wcat(9).1, x, y)) by {
                assert(wcat(9).3 =~= seq![0b1111u8, 0u8, 0u8, 0u8]);
            }
        }
    }
    v.push(q9);
    let q10 = Piece::new(1, 4, 0b11 << 9, [0b1, 0b1, 0b1, 0b1]);
    proof {
        reveal(wentry);
        assert(wentry(q10, 10)) by {
            reveal(wentry);
            assert forall|x: int, y: int|
                0 <= x < 4 && 0 <= y < 4 implies (#[trigger] bit16(q10.as_u16, 4 * y + x)
                == super::piece::pcell(wcat(10).3, wcat(10).0, wcat(10).1, x, y)) by {
                assert(wcat(10).3 =~= seq![0b1u8, 0b1u8, 0b1u8, 0b1u8]);
            }
        }
    }
    v.push(q10);
    let q11 = Piece::new(3, 2, 0b11111111 << 11, [0b111, 0b1, 0, 0]);
    proof {
        reveal(wentry);
        assert(wentry(q11, 11)) by {
            reveal(wentry);
            assert forall|x: int, y: int|
                0 <= x < 4 && 0 <= y < 4 implies (#[trigger] bit16(q11.as_u16, 4 * y + x)
                == super::piece::pcell(wcat(11).3, wcat(11).0, wcat(11).1, x, y)) by {
                assert(wcat(11).3 =~= seq![0b111u8, 0b1u8, 0u8, 0u8]);
            }
        }
    }
    v.push(q11);
    let q12 = Piece::new(3, 2, 0b11111111 << 11, [0b111, 0b100, 0, 0]);
    proof {
        reveal(wentry);
        assert(wentry(q12, 12)) by {
            reveal(wentry);
            assert forall|x: int, y: int|
                0 <= x < 4 && 0 <= y < 4 implies (#[trigger] bit16(q12.as_u16, 4 * y + x)
                == super::piece::pcell(wcat(12).3, wcat(12).0, wcat(12).1, x, y)) by {
                assert(wcat(12).3 =~= seq![0b111u8, 0b100u8, 0u8, 0u8]);
            }
        }
    }
    v.push(q12);
    let q13 = Piece::new(3, 2, 0b11111111 << 11, [0b1, 0b111, 0, 0]);
    proof {
        reveal(wentry);
        assert(wentry(q13, 13)) by {
            reveal(wentry);
            assert forall|x: int, y: int|
                0 <= x < 4 && 0 <= y < 4 implies (#[trigger] bit16(q13.as_u16, 4 * y + x)
                == super::piece::pcell(wcat(13).3, wcat(13).0, wcat(13).1, x, y)) by {
                assert(wcat(13).3 =~= seq![0b1u8, 0b111u8, 0u8, 0u8]);
            }
        }
    }
    v.push(q13);
    let q14 = Piece::new(3, 2, 0b11111111 << 11, [0b100, 0b111, 0, 0]);
    proof {
        reveal(wentry);
        assert(wentry(q14, 14)) by {
            reveal(wentry);
            assert forall|x: int, y: int|
                0 <= x < 4 && 0 <= y < 4 implies (#[trigger] bit16(q14.as_u16, 4 * y + x)
                == super::piece::pcell(wcat(14).3, wcat(14).0, wcat(14).1, x, y)) by {
                assert(wcat(14).3 =~= seq![0b100u8, 0b111u8, 0u8, 0u8]);
            }
        }
    }
    v.push(q14);
    let q15 = Piece::new(2, 3, 0b11111111 << 11, [0b11, 0b10, 0b10, 0]);
    proof {
        reveal(wentry);
        assert(wentry(q15, 15)) by {
            reveal(wentry);
            assert forall|x: int, y: int|
                0 <= x < 4 && 0 <= y < 4 implies (#[trigger] bit16(q15.as_u16, 4 * y + x)
                == super::piece::pcell(wcat(15).3, wcat(15).0, wcat(15).1, x, y)) by {
                assert(wcat(15).3 =~= seq![0b11u8, 0b10u8, 0b10u8, 0u8]);
            }
        }
    }
    v.push(q15);
    let q16 = Piece::new(2, 3, 0b11111111 << 11, [0b11, 0b1, 0b1, 0]);
    proof {
        reveal(wentry);
        assert(wentry(q16, 16)) by {
            reveal(wentry);
            assert forall|x: int, y: int|
                0 <= x < 4 && 0 <= y < 4 implies (#[trigger] bit16(q16.as_u16, 4 * y + x)
                == super::piece::pcell(wcat(16).3, wcat(16).0, wcat(16).1, x, y)) by {
                assert(wcat(16).3 =~= seq![0b11u8, 0b1u8, 0b1u8, 0u8]);
            }
        }
    }
    v.push(q16);
    let q17 = Piece::new(2, 3, 0b11111111 << 11, [0b1, 0b1, 0b11, 0]);
    proof {
        reveal(wentry);
        assert(wentry(q17, 17)) by {
            reveal(wentry);
            assert forall|x: int, y: int|
                0 <= x < 4 && 0 <= y < 4 implies (#[trigger] bit16(q17.as_u16, 4 * y + x)
                == super::piece::pcell(wcat(17).3, wcat(17).0, wcat(17).1, x, y)) by {
                assert(wcat(17).3 =~= seq![0b1u8, 0b1u8, 0b11u8, 0u8]);
            }
        }
    }
    v.push(q17);
    let q18 = Piece::new(2, 3, 0b11111111 << 11, [0b10, 0b10, 0b11, 0]);
    proof {
        reveal(wentry);
        assert(wentry(q18, 18)) by {
            reveal(wentry);
            assert forall|x: int, y: int|
                0 <= x < 4 && 0 <= y < 4 implies (#[trigger] bit16(q18.as_u16, 4 * y + x)
                == super::piece::pcell(wcat(18).3, wcat(18).0, wcat(18).1, x, y)) by {
                assert(wcat(18).3 =~= seq![0b10u8, 0b10u8, 0b11u8, 0u8]);
            }
        }
    }
    v.push(q18);
    let q19 = Piece::new(3, 2, 0b1111 << 19, [0b110, 0b011, 0, 0]);
    proof {
        reveal(wentry);
        assert(wentry(q19, 19)) by {
            reveal(wentry);
            assert forall|x: int, y: int|
                0 <= x < 4 && 0 <= y < 4 implies (#[trigger] bit16(q19.as_u16, 4 * y + x)
                == super::piece::pcell(wcat(19).3, wcat(19).0, wcat(19).1, x, y)) by {
                assert(wcat(19).3 =~= seq![0b110u8, 0b011u8, 0u8, 0u8]);
            }
        }
    }
    v.push(q19);
    let q20 = Piece::new(3, 2, 0b1111 << 19, [0b011, 0b110, 0, 0]);
    proof {
        reveal(wentry);
        assert(wentry(q20, 20)) by {
            reveal(wentry);
            assert forall|x: int, y: int|
                0 <= x < 4 && 0 <= y < 4 implies (#[trigger] bit16(q20.as_u16, 4 * y + x)
                == super::piece::pcell(wcat(20).3, wcat(20).0, wcat(20).1, x, y)) by {
                assert(wcat(20).3 =~= seq![0b011u8, 0b110u8, 0u8, 0u8]);
            }
        }
    }
    v.push(q20);
    let q21 = Piece::new(2, 3, 0b1111 << 19, [0b10, 0b11, 0b01, 0]);
    proof {
        reveal(wentry);
        assert(wentry(q21, 21)) by {
            reveal(wentry);
            assert forall|x: int, y: int|
                0 <= x < 4 && 0 <= y < 4 implies (#[trigger] bit16(q21.as_u16, 4 * y + x)
                == super::piece::pcell(wcat(21).3, wcat(21).0, wcat(21).1, x, y)) by {
                assert(wcat(21).3 =~= seq![0b10u8, 0b11u8, 0b01u8, 0u8]);
            }
        }
    }
    v.push(q21);
    let q22 = Piece::new(2, 3, 0b1111 << 19, [0b01, 0b11, 0b10, 0]);
    proof {
        reveal(wentry);
        assert(wentry(q22, 22)) by {
            reveal(wentry);
            assert forall|x: int, y: int|
                0 <= x < 4 && 0 <= y < 4 implies (#[trigger] bit16(q22.as_u16, 4 * y + x)
                == super::piece::pcell(wcat(22).3, wcat(22).0, wcat(22).1, x, y)) by {
                assert(wcat(22).3 =~= seq![0b01u8, 0b11u8, 0b10u8, 0u8]);
            }
        }
    }
    v.push(q22);
    let q23 = Piece::new(3, 2, 0b1111 << 23, [0b111, 0b010, 0, 0]);
    proof {
        reveal(wentry);
        assert(wentry(q23, 23)) by {
            reveal(wentry);
            assert forall|x: int, y: int|
                0 <= x < 4 && 0 <= y < 4 implies (#[trigger] bit16(q23.as_u16, 4 * y + x)
                == super::piece::pcell(wcat(23).3, wcat(23).0, wcat(23).1, x, y)) by {
                assert(wcat(23).3 =~= seq![0b111u8, 0b010u8, 0u8, 0u8]);
            }
        }
    }
    v.push(q23);
    let q24 = Piece::new(3, 2, 0b1111 << 23, [0b010, 0b111, 0, 0]);
    proof {
        reveal(wentry);
        assert(wentry(q24, 24)) by {
            reveal(wentry);
            assert forall|x: int, y: int|
                0 <= x < 4 && 0 <= y < 4 implies (#[trigger] bit16(q24.as_u16, 4 * y + x)
                == super::piece::pcell(wcat(24).3, wcat(24).0, wcat(24).1, x, y)) by {
                assert(wcat(24).3 =~= seq![0b010u8, 0b111u8, 0u8, 0u8]);
            }
        }
    }
    v.push(q24);
    let q25 = Piece::new(2, 3, 0b1111 << 23, [0b10, 0b11, 0b10, 0]);
    proof {
        reveal(wentry);
        assert(wentry(q25, 25)) by {
            reveal(wentry);
            assert forall|x: int, y: int|
                0 <= x < 4 && 0 <= y < 4 implies (#[trigger] bit16(q25.as_u16, 4 * y + x)
                == super::piece::pcell(wcat(25).3, wcat(25).0, wcat(25).1, x, y)) by {
                assert(wcat(25).3 =~= seq![0b10u8, 0b11u8, 0b10u8, 0u8]);
            }
        }
    }
    v.push(q25);
    let q26 = Piece::new(2, 3, 0b1111 << 23, [0b01, 0b11, 0b01, 0]);
    proof {
        reveal(wentry);
        assert(wentry(q26, 26)) by {
            reveal(wentry);
            assert forall|x: int, y: int|
                0 <= x < 4 && 0 <= y < 4 implies (#[trigger] bit16(q26.as_u16, 4 * y + x)
                == super::piece::pcell(wcat(26).3, wcat(26).0, wcat(26).1, x, y)) by {
                assert(wcat(26).3 =~= seq![0b01u8, 0b11u8, 0b01u8, 0u8]);
            }
        }
    }
    v.push(q26);
    let q27 = Piece::new(2, 2, 0b1 << 27, [0b11, 0b11, 0, 0]);
    proof {
        reveal(wentry);
        assert(wentry(q27, 27)) by {
            reveal(wentry);
            assert forall|x: int, y: int|
                0 <= x < 4 && 0 <= y < 4 implies (#[trigger] bit16(q27.as_u16, 4 * y + x)
                == super::piece::pcell(wcat(27).3, wcat(27).0, wcat(27).1, x, y)) by {
                assert(wcat(27).3 =~= seq![0b11u8, 0b11u8, 0u8, 0u8]);
            }
        }
    }
    v.push(q27);
    let q28 = Piece::new(3, 3, 0b11111111 << 28, [0b110, 0b011, 0b010, 0]);
    proof {
        reveal(wentry);
        assert(wentry(q28, 28)) by {
            reveal(wentry);
            assert forall|x: int, y: int|
                0 <= x < 4 && 0 <= y < 4 implies (#[trigger] bit16(q28.as_u16, 4 * y + x)
                == super::piece::pcell(wcat(28).3, wcat(28).0, wcat(28).1, x, y)) by {
                assert(wcat(28).3 =~= seq![0b110u8, 0b011u8, 0b010u8, 0u8]);
            }
        }
    }
    v.push(q28);
    let q29 = Piece::new(3, 3, 0b11111111 << 28, [0b011, 0b110, 0b010, 0]);
    proof {
        reveal(wentry);
        assert(wentry(q29, 29)) by {
            reveal(wentry);
            assert forall|x: int, y: int|
                0 <= x < 4 && 0 <= y < 4 implies (#[trigger] bit16(q29.as_u16, 4 * y + x)
                == super::piece::pcell(wcat(29).3, wcat(29).0, wcat(29).1, x, y)) by {
                assert(wcat(29).3 =~= seq![0b011u8, 0b110u8, 0b010u8, 0u8]);
            }
        }
    }
    v.push(q29);
    let q30 = Piece::new(3, 3, 0b11111111 << 28, [0b010, 0b110, 0b011, 0]);
    proof {
        reveal(wentry);
        assert(wentry(q30, 30)) by {
            reveal(wentry);
            assert forall|x: int, y: int|
                0 <= x < 4 && 0 <= y < 4 implies (#[trigger] bit16(q30.as_u16, 4 * y + x)
                == super::piece::pcell(wcat(30).3, wcat(30).0, wcat(30).1, x, y)) by {
                assert(wcat(30).3 =~= seq![0b010u8, 0b110u8, 0b011u8, 0u8]);
            }
        }
    }
    v.push(q30);
    let q31 = Piece::new(3, 3, 0b11111111 << 28, [0b010, 0b011, 0b110, 0]);
    proof {
        reveal(wentry);
        assert(wentry(q31, 31)) by {
            reveal(wentry);
            assert forall|x: int, y: int|
                0 <= x < 4 && 0 <= y < 4 implies (#[trigger] bit16(q31.as_u16, 4 * y + x)
                == super::piece::pcell(wcat(31).3, wcat(31).0, wcat(31).1, x, y)) by {
                assert(wcat(31).3 =~= seq![0b010u8, 0b011u8, 0b110u8, 0u8]);
            }
        }
    }
    v.push(q31);
    let q32 = Piece::new(3, 3, 0b11111111 << 28, [0b010, 0b111, 0b001, 0]);
    proof {
        reveal(wentry);
        assert(wentry(q32, 32)) by {
            reveal(wentry);
            assert forall|x: int, y: int|
                0 <= x < 4 && 0 <= y < 4 implies (#[trigger] bit16(q32.as_u16, 4 * y + x)
                == super::piece::pcell(wcat(32).3, wcat(32).0, wcat(32).1, x, y)) by {
                assert(wcat(32).3 =~= seq![0b010u8, 0b111u8, 0b001u8, 0u8]);
            }
        }
    }
    v.push(q32);
    let q33 = Piece::new(3, 3, 0b11111111 << 28, [0b001, 0b111, 0b010, 0]);
    proof {
        reveal(wentry);
        assert(wentry(q33, 33)) by {
            reveal(wentry);
            assert forall|x: int, y: int|
                0 <= x < 4 && 0 <= y < 4 implies (#[trigger] bit16(q33.as_u16, 4 * y + x)
                == super::piece::pcell(wcat(33).3, wcat(33).0, wcat(33).1, x, y)) by {
                assert(wcat(33).3 =~= seq![0b001u8, 0b111u8, 0b010u8, 0u8]);
            }
        }
    }
    v.push(q33);
    let q34 = Piece::new(3, 3, 0b11111111 << 28, [0b010, 0b111, 0b100, 0]);
    proof {
        reveal(wentry);
        assert(wentry(q34, 34)) by {
            reveal(wentry);
            assert forall|x: int, y: int|
                0 <= x < 4 && 0 <= y < 4 implies (#[trigger] bit16(q34.as_u16, 4 * y + x)
                == super::piece::pcell(wcat(34).3, wcat(34).0, wcat(34).1, x, y)) by {
                assert(wcat(34).3 =~= seq![0b010u8, 0b111u8, 0b100u8, 0u8]);
            }
        }
    }
    v.push(q34);
    let q35 = Piece::new(3, 3, 0b11111111 << 28, [0b100, 0b111, 0b010, 0]);
    proof {
        reveal(wentry);
        assert(wentry(q35, 35)) by {
            reveal(wentry);
            assert forall|x: int, y: int|
                0 <= x < 4 && 0 <= y < 4 implies (#[trigger] bit16(q35.as_u16, 4 * y + x)
                == super::piece::pcell(wcat(35).3, wcat(35).0, wcat(35).1, x, y)) by {
                assert(wcat(35).3 =~= seq![0b100u8, 0b111u8, 0b010u8, 0u8]);
            }
        }
    }
    v.push(q35);
    let q36 = Piece::new(4, 2, 0b11111111 << 36, [0b1111, 0b0001, 0, 0]);
    proof {
        reveal(wentry);
        assert(wentry(q36, 36)) by {
            reveal(wentry);
            assert forall|x: int, y: int|
                0 <= x < 4 && 0 <= y < 4 implies (#[trigger] bit16(q36.as_u16, 4 * y + x)
                == super::piece::pcell(wcat(36).3, wcat(36).0, wcat(36).1, x, y)) by {
                assert(wcat(36).3 =~= seq![0b1111u8, 0b0001u8, 0u8, 0u8]);
            }
        }
    }
    v.push(q36);
    let q37 = Piece::new(4, 2, 0b11111111 << 36, [0b1111, 0b1000, 0, 0]);
    proof {
        reveal(wentry);
        assert(wentry(q37, 37)) by {
            reveal(wentry);
            assert forall|x: int, y: int|
                0 <= x < 4 && 0 <= y < 4 implies (#[trigger] bit16(q37.as_u16, 4 * y + x)
                == super::piece::pcell(wcat(37).3, wcat(37).0, wcat(37).1, x, y)) by {
                assert(wcat(37).3 =~= seq![0b1111u8, 0b1000u8, 0u8, 0u8]);
            }
        }
    }
    v.push(q37);
    let q38 = Piece::new(4, 2, 0b11111111 << 36, [0b1000, 0b1111, 0, 0]);
    proof {
        reveal(wentry);
        assert(wentry(q38, 38)) by {
            reveal(wentry);
            assert forall|x: int, y: int|
                0 <= x < 4 && 0 <= y < 4 implies (#[trigger] bit16(q38.as_u16, 4 * y + x)
                == super::piece::pcell(wcat(38).3, wcat(38).0, wcat(38).1, x, y)) by {
                assert(wcat(38).3 =~= seq![0b1000u8, 0b1111u8, 0u8, 0u8]);
            }
        }
    }
    v.push(q38);
    let q39 = Piece::new(4, 2, 0b11111111 << 36, [0b0001, 0b1111, 0, 0]);
    proof {
        reveal(wentry);
        assert(wentry(q39, 39)) by {
            reveal(wentry);
            assert forall|x: int, y: int|
                0 <= x < 4 && 0 <= y < 4 implies (#[trigger] bit16(q39.as_u16, 4 * y + x)
                == super::piece::pcell(wcat(39).3, wcat(39).0, wcat(39).1, x, y)) by {
                assert(wcat(39).3 =~= seq![0b0001u8, 0b1111u8, 0u8, 0u8]);
            }
        }
    }
    v.push(q39);
    let q40 = Piece::new(2, 4, 0b11111111 << 36, [0b11, 0b10, 0b10, 0b10]);
    proof {
        reveal(wentry);
        assert(wentry(q40, 40)) by {
            reveal(wentry);
            assert forall|x: int, y: int|
                0 <= x < 4 && 0 <= y < 4 implies (#[trigger] bit16(q40.as_u16, 4 * y + x)
                == super::piece::pcell(wcat(40).3, wcat(40).0, wcat(40).1, x, y)) by {
                assert(wcat(40).3 =~= seq![0b11u8, 0b10u8, 0b10u8, 0b10u8]);
            }
        }
    }
    v.push(q40);
    let q41 = Piece::new(2, 4, 0b11111111 << 36, [0b11, 0b01, 0b01, 0b01]);
    proof {
        reveal(wentry);
        assert(wentry(q41, 41)) by {
            reveal(wentry);
            assert forall|x: int, y: int|
                0 <= x < 4 && 0 <= y < 4 implies (#[trigger] bit16(q41.as_u16, 4 * y + x)
                == super::piece::pcell(wcat(41).3, wcat(41).0, wcat(41).1, x, y)) by {
                assert(wcat(41).3 =~= seq![0b11u8, 0b01u8, 0b01u8, 0b01u8]);
            }
        }
    }
    v.push(q41);
    let q42 = Piece::new(2, 4, 0b11111111 << 36, [0b10, 0b10, 0b10, 0b11]);
    proof {
        reveal(wentry);
        assert(wentry(q42, 42)) by {
            reveal(wentry);
            assert forall|x: int, y: int|
                0 <= x < 4 && 0 <= y < 4 implies (#[trigger] bit16(q42.as_u16, 4 * y + x)
                == super::piece::pcell(wcat(42).3, wcat(42).0, wcat(42).1, x, y)) by {
                assert(wcat(42).3 =~= seq![0b10u8, 0b10u8, 0b10u8, 0b11u8]);
            }
        }
    }
    v.push(q42);
    let q43 = Piece::new(2, 4, 0b11111111 << 36, [0b01, 0b01, 0b01, 0b11]);
    proof {
        reveal(wentry);
        assert(wentry(q43, 43)) by {
            reveal(wentry);
            assert forall|x: int, y: int|
                0 <= x < 4 && 0 <= y < 4 implies (#[trigger] bit16(q43.as_u16, 4 * y + x)
                == super::piece::pcell(wcat(43).3, wcat(43).0, wcat(43).1, x, y)) by {
                assert(wcat(43).3 =~= seq![0b01u8, 0b01u8, 0b01u8, 0b11u8]);
            }
        }
    }
    v.push(q43);
    let q44 = Piece::new(4, 2, 0b11111111 << 44, [0b1110, 0b0011, 0b0, 0]);
    proof {
        reveal(wentry);
        assert(wentry(q44, 44)) by {
            reveal(wentry);
            assert forall|x: int, y: int|
                0 <= x < 4 && 0 <= y < 4 implies (#[trigger] bit16(q44.as_u16, 4 * y + x)
                == super::piece::pcell(wcat(44).3, wcat(44).0, wcat(44).1, x, y)) by {
                assert(wcat(44).3 =~= seq![0b1110u8, 0b0011u8, 0b0u8, 0u8]);
            }
        }
    }
    v.push(q44);
    let q45 = Piece::new(4, 2, 0b11111111 << 44, [0b0111, 0b1100, 0b0, 0]);
    proof {
        reveal(wentry);
        assert(wentry(q45, 45)) by {
            reveal(wentry);
            assert forall|x: int, y: int|
                0 <= x < 4 && 0 <= y < 4 implies (#[trigger] bit16(q45.as_u16, 4 * y + x)
                == super::piece::pcell(wcat(45).3, wcat(45).0, wcat(45).1, x, y)) by {
                assert(wcat(45).3 =~= seq![0b0111u8, 0b1100u8, 0b0u8, 0u8]);
            }
        }
    }
    v.push(q45);
    let q46 = Piece::new(4, 2, 0b11111111 << 44, [0b0011, 0b1110, 0b0, 0]);
    proof {
        reveal(wentry);
        assert(wentry(q46, 46)) by {
            reveal(wentry);
            assert forall|x: int, y: int|
                0 <= x < 4 && 0 <= y < 4 implies (#[trigger] bit16(q46.as_u16, 4 * y + x)
                == super::piece::pcell(wcat(46).3, wcat(46).0, wcat(46).1, x, y)) by {
                assert(wcat(46).3 =~= seq![0b0011u8, 0b1110u8, 0b0u8, 0u8]);
            }
        }
    }
    v.push(q46);
    let q47 = Piece::new(4, 2, 0b11111111 << 44, [0b1100, 0b0111, 0b0, 0]);
    proof {
        reveal(wentry);
        assert(wentry(q47, 47)) by {
            reveal(wentry);
            assert forall|x: int, y: int|
                0 <= x < 4 && 0 <= y < 4 implies (#[trigger] bit16(q47.as_u16, 4 * y + x)
                == super::piece::pcell(wcat(47).3, wcat(47).0, wcat(47).1, x, y)) by {
                assert(wcat(47).3 =~= seq![0b1100u8, 0b0111u8, 0b0u8, 0u8]);
            }
        }
    }
    v.push(q47);
    let q48 = Piece::new(2, 4, 0b11111111 << 44, [0b10, 0b10, 0b11, 0b01]);
    proof {
        reveal(wentry);
        assert(wentry(q48, 48)) by {
            reveal(wentry);
            assert forall|x: int, y: int|
                0 <= x < 4 && 0 <= y < 4 implies (#[trigger] bit16(q48.as_u16, 4 * y + x)
                == super::piece::pcell(wcat(48).3, wcat(48).0, wcat(48).1, x, y)) by {
                assert(wcat(48).3 =~= seq![0b10u8, 0b10u8, 0b11u8, 0b01u8]);
            }
        }
    }
    v.push(q48);
    let q49 = Piece::new(2, 4, 0b11111111 << 44, [0b01, 0b01, 0b11, 0b10]);
    proof {
        reveal(wentry);
        assert(wentry(q49, 49)) by {
            reveal(wentry);
            assert forall|x: int, y: int|
                0 <= x < 4 && 0 <= y < 4 implies (#[trigger] bit16(q49.as_u16, 4 * y + x)
                == super::piece::pcell(wcat(49).3, wcat(49).0, wcat(49).1, x, y)) by {
                assert(wcat(49).3 =~= seq![0b01u8, 0b01u8, 0b11u8, 0b10u8]);
            }
        }
    }
    v.push(q49);
    let q50 = Piece::new(2, 4, 0b11111111 << 44, [0b10, 0b11, 0b01, 0b01]);
    proof {
        reveal(wentry);
        assert(wentry(q50, 50)) by {
            reveal(wentry);
            assert forall|x: int, y: int|
                0 <= x < 4 && 0 <= y < 4 implies (#[trigger] bit16(q50.as_u16, 4 * y + x)
                == super::piece::pcell(wcat(50).3, wcat(50).0, wcat(50).1, x, y)) by {
                assert(wcat(50).3 =~= seq![0b10u8, 0b11u8, 0b01u8, 0b01u8]);
            }
        }
    }
    v.push(q50);
    let q51 = Piece::new(2, 4, 0b11111111 << 44, [0b01, 0b11, 0b10, 0b10]);
    proof {
        reveal(wentry);
        assert(wentry(q51, 51)) by {
            reveal(wentry);
            assert forall|x: int, y: int|
                0 <= x < 4 && 0 <= y < 4 implies (#[trigger] bit16(q51.as_u16, 4 * y + x)
                == super::piece::pcell(wcat(51).3, wcat(51).0, wcat(51).1, x, y)) by {
                assert(wcat(51).3 =~= seq![0b01u8, 0b11u8, 0b10u8, 0b10u8]);
            }
        }
    }
    v.push(q51);
    let q52 = Piece::new(3, 2, 0b11111111 << 52, [0b110, 0b111, 0, 0]);
    proof {
        reveal(wentry);
        assert(wentry(q52, 52)) by {
            reveal(wentry);
            assert forall|x: int, y: int|
                0 <= x < 4 && 0 <= y < 4 implies (#[trigger] bit16(q52.as_u16, 4 * y + x)
                == super::piece::pcell(wcat(52).3, wcat(52).0, wcat(52).1, x, y)) by {
                assert(wcat(52).3 =~= seq![0b110u8, 0b111u8, 0u8, 0u8]);
            }
        }
    }
    v.push(q52);
    let q53 = Piece::new(3, 2, 0b11111111 << 52, [0b111, 0b110, 0, 0]);
    proof {
        reveal(wentry);
        assert(wentry(q53, 53)) by {
            reveal(wentry);
            assert forall|x: int, y: int|
                0 <= x < 4 && 0 <= y < 4 implies (#[trigger] bit16(q53.as_u16, 4 * y + x)
                == super::piece::pcell(wcat(53).3, wcat(53).0, wcat(53).1, x, y)) by {
                assert(wcat(53).3 =~= seq![0b111u8, 0b110u8, 0u8, 0u8]);
            }
        }
    }
    v.push(q53);
    let q54 = Piece::new(3, 2, 0b11111111 << 52, [0b011, 0b111, 0, 0]);
    proof {
        reveal(wentry);
        assert(wentry(q54, 54)) by {
            reveal(wentry);
            assert forall|x: int, y: int|
                0 <= x < 4 && 0 <= y < 4 implies (#[trigger] bit16(q54.as_u16, 4 * y + x)
                == super::piece::pcell(wcat(54).3, wcat(54).0, wcat(54).1, x, y)) by {
                assert(wcat(54).3 =~= seq![0b011u8, 0b111u8, 0u8, 0u8]);
            }
        }
    }
    v.push(q54);
    let q55 = Piece::new(3, 2, 0b11111111 << 52, [0b111, 0b011, 0, 0]);
    proof {
        reveal(wentry);
        assert(wentry(q55, 55)) by {
            reveal(wentry);
            assert forall|x: int, y: int|
                0 <= x < 4 && 0 <= y < 4 implies (#[trigger] bit16(q55.as_u16, 4 * y + x)
                == super::piece::pcell(wcat(55).3, wcat(55).0, wcat(55).1, x, y)) by {
                assert(wcat(55).3 =~= seq![0b111u8, 0b011u8, 0u8, 0u8]);
            }
        }
    }
    v.push(q55);
    let q56 = Piece::new(2, 3, 0b11111111 << 52, [0b11, 0b11, 0b01, 0]);
    proof {
        reveal(wentry);
        assert(wentry(q56, 56)) by {
            reveal(wentry);
            assert forall|x: int, y: int|
                0 <= x < 4 && 0 <= y < 4 implies (#[trigger] bit16(q56.as_u16, 4 * y + x)
                == super::piece::pcell(wcat(56).3, wcat(56).0, wcat(56).1, x, y)) by {
                assert(wcat(56).3 =~= seq![0b11u8, 0b11u8, 0b01u8, 0u8]);
            }
        }
    }
    v.push(q56);
    let q57 = Piece::new(2, 3, 0b11111111 << 52, [0b11, 0b11, 0b10, 0]);
    proof {
        reveal(wentry);
        assert(wentry(q57, 57)) by {
            reveal(wentry);
            assert forall|x: int, y: int|
                0 <= x < 4 && 0 <= y < 4 implies (#[trigger] bit16(q57.as_u16, 4 * y + x)
                == super::piece::pcell(wcat(57).3, wcat(57).0, wcat(57).1, x, y)) by {
                assert(wcat(57).3 =~= seq![0b11u8, 0b11u8, 0b10u8, 0u8]);
            }
        }
    }
    v.push(q57);
    let q58 = Piece::new(2, 3, 0b11111111 << 52, [0b01, 0b11, 0b11, 0]);
    proof {
        reveal(wentry);
        assert(wentry(q58, 58)) by {
            reveal(wentry);
            assert forall|x: int, y: int|
                0 <= x < 4 && 0 <= y < 4 implies (#[trigger] bit16(q58.as_u16, 4 * y + x)
                == super::piece::pcell(wcat(58).3, wcat(58).0, wcat(58).1, x, y)) by {
                assert(wcat(58).3 =~= seq![0b01u8, 0b11u8, 0b11u8, 0u8]);
            }
        }
    }
    v.push(q58);
    let q59 = Piece::new(2, 3, 0b11111111 << 52, [0b10, 0b11, 0b11, 0]);
    proof {
        reveal(wentry);
        assert(wentry(q59, 59)) by {
            reveal(wentry);
            assert forall|x: int, y: int|
                0 <= x < 4 && 0 <= y < 4 implies (#[trigger] bit16(q59.as_u16, 4 * y + x)
                == super::piece::pcell(wcat(59).3, wcat(59).0, wcat(59).1, x, y)) by {
                assert(wcat(59).3 =~= seq![0b10u8, 0b11u8, 0b11u8, 0u8]);
            }
        }
    }
    v.push(q59);
    let q60 = Piece::new(3, 3, 0b1111 << 60, [0b111, 0b010, 0b010, 0]);
    proof {
        reveal(wentry);
        assert(wentry(q60, 60)) by {
            reveal(wentry);
            assert forall|x: int, y: int|
                0 <= x < 4 && 0 <= y < 4 implies (#[trigger] bit16(q60.as_u16, 4 * y + x)
                == super::piece::pcell(wcat(60).3, wcat(60).0, wcat(60).1, x, y)) by {
                assert(wcat(60).3 =~= seq![0b111u8, 0b010u8, 0b010u8, 0u8]);
            }
        }
    }
    v.push(q60);
    let q61 = Piece::new(3, 3, 0b1111 << 60, [0b010, 0b010, 0b111, 0]);
    proof {
        reveal(wentry);
        assert(wentry(q61, 61)) by {
            reveal(wentry);
            assert forall|x: int, y: int|
                0 <= x < 4 && 0 <= y < 4 implies (#[trigger] bit16(q61.as_u16, 4 * y + x)
                == super::piece::pcell(wcat(61).3, wcat(61).0, wcat(61).1, x, y)) by {
                assert(wcat(61).3 =~= seq![0b010u8, 0b010u8, 0b111u8, 0u8]);
            }
        }
    }
    v.push(q61);
    let q62 = Piece::new(3, 3, 0b1111 << 60, [0b001, 0b111, 0b001, 0]);
    proof {
        reveal(wentry);
        assert(wentry(q62, 62)) by {
            reveal(wentry);
            assert forall|x: int, y: int|
                0 <= x < 4 && 0 <= y < 4 implies (#[trigger] bit16(q62.as_u16, 4 * y + x)
                == super::piece::pcell(wcat(62).3, wcat(62).0, wcat(62).1, x, y)) by {
                assert(wcat(62).3 =~= seq![0b001u8, 0b111u8, 0b001u8, 0u8]);
            }
        }
    }
    v.push(q62);
    let q63 = Piece::new(3, 3, 0b1111 << 60, [0b100, 0b111, 0b100, 0]);
    proof {
        reveal(wentry);
        assert(wentry(q63, 63)) by {
            reveal(wentry);
            assert forall|x: int, y: int|
                0 <= x < 4 && 0 <= y < 4 implies (#[trigger] bit16(q63.as_u16, 4 * y + x)
                == super::piece::pcell(wcat(63).3, wcat(63).0, wcat(63).1, x, y)) by {
                assert(wcat(63).3 =~= seq![0b100u8, 0b111u8, 0b100u8, 0u8]);
            }
        }
    }
    v.push(q63);
    let q64 = Piece::new(3, 2, 0b1111 << 64, [0b101, 0b111, 0, 0]);
    proof {
        reveal(wentry);
        assert(wentry(q64, 64)) by {
            reveal(wentry);
            assert forall|x: int, y: int|
                0 <= x < 4 && 0 <= y < 4 implies (#[trigger] bit16(q64.as_u16, 4 * y + x)
                == super::piece::pcell(wcat(64).3, wcat(64).0, wcat(64).1, x, y)) by {
                assert(wcat(64).3 =~= seq![0b101u8, 0b111u8, 0u8, 0u8]);
            }
        }
    }
    v.push(q64);
    let q65 = Piece::new(3, 2, 0b1111 << 64, [0b111, 0b101, 0, 0]);
    proof {
        reveal(wentry);
        assert(wentry(q65, 65)) by {
            reveal(wentry);
            assert forall|x: int, y: int|
                0 <= x < 4 && 0 <= y < 4 implies (#[trigger] bit16(q65.as_u16, 4 * y + x)
                == super::piece::pcell(wcat(65).3, wcat(65).0, wcat(65).1, x, y)) by {
                assert(wcat(65).3 =~= seq![0b111u8, 0b101u8, 0u8, 0u8]);
            }
        }
    }
    v.push(q65);
    let q66 = Piece::new(2, 3, 0b1111 << 64, [0b11, 0b10, 0b11, 0]);
    proof {
        reveal(wentry);
        assert(wentry(q66, 66)) by {
            reveal(wentry);
            assert forall|x: int, y: int|
                0 <= x < 4 && 0 <= y < 4 implies (#[trigger] bit16(q66.as_u16, 4 * y + x)
                == super::piece::pcell(wcat(66).3, wcat(66).0, wcat(66).1, x, y)) by {
                assert(wcat(66).3 =~= seq![0b11u8, 0b10u8, 0b11u8, 0u8]);
            }
        }
    }
    v.push(q66);
    let q67 = Piece::new(2, 3, 0b1111 << 64, [0b11, 0b01, 0b11, 0]);
    proof {
        reveal(wentry);
        assert(wentry(q67, 67)) by {
            reveal(wentry);
            assert forall|x: int, y: int|
                0 <= x < 4 && 0 <= y < 4 implies (#[trigger] bit16(q67.as_u16, 4 * y + x)
                == super::piece::pcell(wcat(67).3, wcat(67).0, wcat(67).1, x, y)) by {
                assert(wcat(67).3 =~= seq![0b11u8, 0b01u8, 0b11u8, 0u8]);
            }
        }
    }
    v.push(q67);
    let q68 = Piece::new(3, 3, 0b1111 << 68, [0b100, 0b100, 0b111, 0]);
    proof {
        reveal(wentry);
        assert(wentry(q68, 68)) by {
            reveal(wentry);
            assert forall|x: int, y: int|
                0 <= x < 4 && 0 <= y < 4 implies (#[trigger] bit16(q68.as_u16, 4 * y + x)
                == super::piece::pcell(wcat(68).3, wcat(68).0, wcat(68).1, x, y)) by {
                assert(wcat(68).3 =~= seq![0b100u8, 0b100u8, 0b111u8, 0u8]);
            }
        }
    }
    v.push(q68);
    let q69 = Piece::new(3, 3, 0b1111 << 68, [0b001, 0b001, 0b111, 0]);
    proof {
        reveal(wentry);
        assert(wentry(q69, 69)) by {
            reveal(wentry);
            assert forall|x: int, y: int|
                0 <= x < 4 && 0 <= y < 4 implies (#[trigger] bit16(q69.as_u16, 4 * y + x)
                == super::piece::pcell(wcat(69).3, wcat(69).0, wcat(69).1, x, y)) by {
                assert(wcat(69).3 =~= seq![0b001u8, 0b001u8, 0b111u8, 0u8]);
            }
        }
    }
    v.push(q69);
    let q70 = Piece::new(3, 3, 0b1111 << 68, [0b111, 0b100, 0b100, 0]);
    proof {
        reveal(wentry);
        assert(wentry(q70, 70)) by {
            reveal(wentry);
            assert forall|x: int, y: int|
                0 <= x < 4 && 0 <= y < 4 implies (#[trigger] bit16(q70.as_u16, 4 * y + x)
                == super::piece::pcell(wcat(70).3, wcat(70).0, wcat(70).1, x, y)) by {
                assert(wcat(70).3 =~= seq![0b111u8, 0b100u8, 0b100u8, 0u8]);
            }
        }
    }
    v.push(q70);
    let q71 = Piece::new(3, 3, 0b1111 << 68, [0b111, 0b001, 0b001, 0]);
    proof {
        reveal(wentry);
        assert(wentry(q71, 71)) by {
            reveal(wentry);
            assert forall|x: int, y: int|
                0 <= x < 4 && 0 <= y < 4 implies (#[trigger] bit16(q71.as_u16, 4 * y + x)
                == super::piece::pcell(wcat(71).3, wcat(71).0, wcat(71).1, x, y)) by {
                assert(wcat(71).3 =~= seq![0b111u8, 0b001u8, 0b001u8, 0u8]);
            }
        }
    }
    v.push(q71);
    let q72 = Piece::new(3, 3, 0b1111 << 72, [0b100, 0b110, 0b011, 0]);
    proof {
        reveal(wentry);
        assert(wentry(q72, 72)) by {
            reveal(wentry);
            assert forall|x: int, y: int|
                0 <= x < 4 && 0 <= y < 4 implies (#[trigger] bit16(q72.as_u16, 4 * y + x)
                == super::piece::pcell(wcat(72).3, wcat(72).0, wcat(72).1, x, y)) by {
                assert(wcat(72).3 =~= seq![0b100u8, 0b110u8, 0b011u8, 0u8]);
            }
        }
    }
    v.push(q72);
    let q73 = Piece::new(3, 3, 0b1111 << 72, [0b011, 0b110, 0b100, 0]);
    proof {
        reveal(wentry);
        assert(wentry(q73, 73)) by {
            reveal(wentry);
            assert forall|x: int, y: int|
                0 <= x < 4 && 0 <= y < 4 implies (#[trigger] bit16(q73.as_u16, 4 * y + x)
                == super::piece::pcell(wcat(73).3, wcat(73).0, wcat(73).1, x, y)) by {
                assert(wcat(73).3 =~= seq![0b011u8, 0b110u8, 0b100u8, 0u8]);
            }
        }
    }
    v.push(q73);
    let q74 = Piece::new(3, 3, 0b1111 << 72, [0b001, 0b011, 0b110, 0]);
    proof {
        reveal(wentry);
        assert(wentry(q74, 74)) by {
            reveal(wentry);
            assert forall|x: int, y: int|
                0 <= x < 4 && 0 <= y < 4 implies (#[trigger] bit16(q74.as_u16, 4 * y + x)
                == super::piece::pcell(wcat(74).3, wcat(74).0, wcat(74).1, x, y)) by {
                assert(wcat(74).3 =~= seq![0b001u8, 0b011u8, 0b110u8, 0u8]);
            }
        }
    }
    v.push(q74);
    let q75 = Piece::new(3, 3, 0b1111 << 72, [0b110, 0b011, 0b001, 0]);
    proof {
        reveal(wentry);
        assert(wentry(q75, 75)) by {
            reveal(wentry);
            assert forall|x: int, y: int|
                0 <= x < 4 && 0 <= y < 4 implies (#[trigger] bit16(q75.as_u16, 4 * y + x)
                == super::piece::pcell(wcat(75).3, wcat(75).0, wcat(75).1, x, y)) by {
                assert(wcat(75).3 =~= seq![0b110u8, 0b011u8, 0b001u8, 0u8]);
            }
        }
    }
    v.push(q75);
    let q76 = Piece::new(3, 3, 0b1 << 76, [0b010, 0b111, 0b010, 0]);
    proof {
        reveal(wentry);
        assert(wentry(q76, 76)) by {
            reveal(wentry);
            assert forall|x: int, y: int|
                0 <= x < 4 && 0 <= y < 4 implies (#[trigger] bit16(q76.as_u16, 4 * y + x)
                == super::piece::pcell(wcat(76).3, wcat(76).0, wcat(76).1, x, y)) by {
                assert(wcat(76).3 =~= seq![0b010u8, 0b111u8, 0b010u8, 0u8]);
            }
        }
    }
    v.push(q76);
    let q77 = Piece::new(4, 2, 0b11111111 << 77, [0b1111, 0b0010, 0, 0]);
    proof {
        reveal(wentry);
        assert(wentry(q77, 77)) by {
            reveal(wentry);
            assert forall|x: int, y: int|
                0 <= x < 4 && 0 <= y < 4 implies (#[trigger] bit16(q77.as_u16, 4 * y + x)
                == super::piece::pcell(wcat(77).3, wcat(77).0, wcat(77).1, x, y)) by {
                assert(wcat(77).3 =~= seq![0b1111u8, 0b0010u8, 0u8, 0u8]);
            }
        }
    }
    v.push(q77);
    let q78 = Piece::new(4, 2, 0b11111111 << 77, [0b1111, 0b0100, 0, 0]);
    proof {
        reveal(wentry);
        assert(wentry(q78, 78)) by {
            reveal(wentry);
            assert forall|x: int, y: int|
                0 <= x < 4 && 0 <= y < 4 implies (#[trigger] bit16(q78.as_u16, 4 * y + x)
                == super::piece::pcell(wcat(78).3, wcat(78).0, wcat(78).1, x, y)) by {
                assert(wcat(78).3 =~= seq![0b1111u8, 0b0100u8, 0u8, 0u8]);
            }
        }
    }
    v.push(q78);
    let q79 = Piece::new(4, 2, 0b11111111 << 77, [0b0010, 0b1111, 0, 0]);
    proof {
        reveal(wentry);
        assert(wentry(q79, 79)) by {
            reveal(wentry);
            assert forall|x: int, y: int|
                0 <= x < 4 && 0 <= y < 4 implies (#[trigger] bit16(q79.as_u16, 4 * y + x)
                == super::piece::pcell(wcat(79).3, wcat(79).0, wcat(79).1, x, y)) by {
                assert(wcat(79).3 =~= seq![0b0010u8, 0b1111u8, 0u8, 0u8]);
            }
        }
    }
    v.push(q79);
    let q80 = Piece::new(4, 2, 0b11111111 << 77, [0b0100, 0b1111, 0, 0]);
    proof {
        reveal(wentry);
        assert(wentry(q80, 80)) by {
            reveal(wentry);
            assert forall|x: int, y: int|
                0 <= x < 4 && 0 <= y < 4 implies (#[trigger] bit16(q80.as_u16, 4 * y + x)
                == super::piece::pcell(wcat(80).3, wcat(80).0, wcat(80).1, x, y)) by {
                assert(wcat(80).3 =~= seq![0b0100u8, 0b1111u8, 0u8, 0u8]);
            }
        }
    }
    v.push(q80);
    let q81 = Piece::new(2, 4, 0b11111111 << 77, [0b01, 0b01, 0b11, 0b01]);
    proof {
        reveal(wentry);
        assert(wentry(q81, 81)) by {
            reveal(wentry);
            assert forall|x: int, y: int|
                0 <= x < 4 && 0 <= y < 4 implies (#[trigger] bit16(q81.as_u16, 4 * y + x)
                == super::piece::pcell(wcat(81).3, wcat(81).0, wcat(81).1, x, y)) by {
                assert(wcat(81).3 =~= seq![0b01u8, 0b01u8, 0b11u8, 0b01u8]);
            }
        }
    }
    v.push(q81);
    let q82 = Piece::new(2, 4, 0b11111111 << 77, [0b01, 0b11, 0b01, 0b01]);
    proof {
        reveal(wentry);
        assert(wentry(q82, 82)) by {
            reveal(wentry);
            assert forall|x: int, y: int|
                0 <= x < 4 && 0 <= y < 4 implies (#[trigger] bit16(q82.as_u16, 4 * y + x)
                == super::piece::pcell(wcat(82).3, wcat(82).0, wcat(82).1, x, y)) by {
                assert(wcat(82).3 =~= seq![0b01u8, 0b11u8, 0b01u8, 0b01u8]);
            }
        }
    }
    v.push(q82);
    let q83 = Piece::new(2, 4, 0b11111111 << 77, [0b10, 0b10, 0b11, 0b10]);
    proof {
        reveal(wentry);
        assert(wentry(q83, 83)) by {
            reveal(wentry);
            assert forall|x: int, y: int|
                0 <= x < 4 && 0 <= y < 4 implies (#[trigger] bit16(q83.as_u16, 4 * y + x)
                == super::piece::pcell(wcat(83).3, wcat(83).0, wcat(83).1, x, y)) by {
                assert(wcat(83).3 =~= seq![0b10u8, 0b10u8, 0b11u8, 0b10u8]);
            }
        }
    }
    v.push(q83);
    let q84 = Piece::new(2, 4, 0b11111111 << 77, [0b10, 0b11, 0b10, 0b10]);
    proof {
        reveal(wentry);
        assert(wentry(q84, 84)) by {
            reveal(wentry);
            assert forall|x: int, y: int|
                0 <= x < 4 && 0 <= y < 4 implies (#[trigger] bit16(q84.as_u16, 4 * y + x)
                == super::piece::pcell(wcat(84).3, wcat(84).0, wcat(84).1, x, y)) by {
                assert(wcat(84).3 =~= seq![0b10u8, 0b11u8, 0b10u8, 0b10u8]);
            }
        }
    }
    v.push(q84);
    let q85 = Piece::new(3, 3, 0b1111 << 85, [0b110, 0b010, 0b011, 0]);
    proof {
        reveal(wentry);
        assert(wentry(q85, 85)) by {
            reveal(wentry);
            assert forall|x: int, y: int|
                0 <= x < 4 && 0 <= y < 4 implies (#[trigger] bit16(q85.as_u16, 4 * y + x)
                == super::piece::pcell(wcat(85).3, wcat(85).0, wcat(85).1, x, y)) by {
                assert(wcat(85).3 =~= seq![0b110u8, 0b010u8, 0b011u8, 0u8]);
            }
        }
    }
    v.push(q85);
    let q86 = Piece::new(3, 3, 0b1111 << 85, [0b011, 0b010, 0b110, 0]);
    proof {
        reveal(wentry);
        assert(wentry(q86, 86)) by {
            reveal(wentry);
            assert forall|x: int, y: int|
                0 <= x < 4 && 0 <= y < 4 implies (#[trigger] bit16(q86.as_u16, 4 * y + x)
                == super::piece::pcell(wcat(86).3, wcat(86).0, wcat(86).1, x, y)) by {
                assert(wcat(86).3 =~= seq![0b011u8, 0b010u8, 0b110u8, 0u8]);
            }
        }
    }
    v.push(q86);
    let q87 = Piece::new(3, 3, 0b1111 << 85, [0b001, 0b111, 0b100, 0]);
    proof {
        reveal(wentry);
        assert(wentry(q87, 87)) by {
            reveal(wentry);
            assert forall|x: int, y: int|
                0 <= x < 4 && 0 <= y < 4 implies (#[trigger] bit16(q87.as_u16, 4 * y + x)
                == super::piece::pcell(wcat(87).3, wcat(87).0, wcat(87).1, x, y)) by {
                assert(wcat(87).3 =~= seq![0b001u8, 0b111u8, 0b100u8, 0u8]);
            }
        }
    }
    v.push(q87);
    let q88 = Piece::new(3, 3, 0b1111 << 85, [0b100, 0b111, 0b001, 0]);
    proof {
        reveal(wentry);
        assert(wentry(q88, 88)) by {
            reveal(wentry);
            assert forall|x: int, y: int|
                0 <= x < 4 && 0 <= y < 4 implies (#[trigger] bit16(q88.as_u16, 4 * y + x)
                == super::piece::pcell(wcat(88).3, wcat(88).0, wcat(88).1, x, y)) by {
                assert(wcat(88).3 =~= seq![0b100u8, 0b111u8, 0b001u8, 0u8]);
            }
        }
    }
    v.push(q88);
    proof {
        assert(v@[0] == q0);
        assert(v@[1] == q1);
        assert(v@[2] == q2);
        assert(v@[3] == q3);
        assert(v@[4] == q4);
        assert(v@[5] == q5);
        assert(v@[6] == q6);
        assert(v@[7] == q7);
        assert(v@[8] == q8);
        assert(v@[9] == q9);
        assert(v@[10] == q10);
        assert(v@[11] == q11);
        assert(v@[12] == q12);
        assert(v@[13] == q13);
        assert(v@[14] == q14);
        assert(v@[15] == q15);
        assert(v@[16] == q16);
        assert(v@[17] == q17);
        assert(v@[18] == q18);
        assert(v@[19] == q19);
        assert(v@[20] == q20);
        assert(v@[21] == q21);
        assert(v@[22] == q22);
        assert(v@[23] == q23);
        assert(v@[24] == q24);
        assert(v@[25] == q25);
        assert(v@[26] == q26);
        assert(v@[27] == q27);
        assert(v@[28] == q28);
        assert(v@[29] == q29);
        assert(v@[30] == q30);
        assert(v@[31] == q31);
        assert(v@[32] == q32);
        assert(v@[33] == q33);
        assert(v@[34] == q34);
        assert(v@[35] == q35);
        assert(v@[36] == q36);
        assert(v@[37] == q37);
        assert(v@[38] == q38);
        assert(v@[39] == q39);
        assert(v@[40] == q40);
        assert(v@[41] == q41);
        assert(v@[42] == q42);
        assert(v@[43] == q43);
        assert(v@[44] == q44);
        assert(v@[45] == q45);
        assert(v@[46] == q46);
        assert(v@[47] == q47);
        assert(v@[48] == q48);
        assert(v@[49] == q49);
        assert(v@[50] == q50);
        assert(v@[51] == q51);
        assert(v@[52] == q52);
        assert(v@[53] == q53);
        assert(v@[54] == q54);
        assert(v@[55] == q55);
        assert(v@[56] == q56);
        assert(v@[57] == q57);
        assert(v@[58] == q58);
        assert(v@[59] == q59);
        assert(v@[60] == q60);
        assert(v@[61] == q61);
        assert(v@[62] == q62);
        assert(v@[63] == q63);
        assert(v@[64] == q64);
        assert(v@[65] == q65);
        assert(v@[66] == q66);
        assert(v@[67] == q67);
        assert(v@[68] == q68);
        assert(v@[69] == q69);
        assert(v@[70] == q70);
        assert(v@[71] == q71);
        assert(v@[72] == q72);
        assert(v@[73] == q73);
        assert(v@[74] == q74);
        assert(v@[75] == q75);
        assert(v@[76] == q76);
        assert(v@[77] == q77);
        assert(v@[78] == q78);
        assert(v@[79] == q79);
        assert(v@[80] == q80);
        assert(v@[81] == q81);
        assert(v@[82] == q82);
        assert(v@[83] == q83);
        assert(v@[84] == q84);
        assert(v@[85] == q85);
        assert(v@[86] == q86);
        assert(v@[87] == q87);
        assert(v@[88] == q88);
        assert forall|i: int| 0 <= i < 89 implies wentry(#[trigger] v@[i], i) by {}
        reveal(wentry);
        assert(bit16(v@[9].as_u16, (4 * 0 + 3) as int) == super::piece::pcell(
            wcat(9).3,
            4,
            1,
            3,
            0,
        ));
        assert(bit16(v@[10].as_u16, (4 * 3 + 0) as int) == super::piece::pcell(
            wcat(10).3,
            1,
            4,
            0,
            3,
        ));
        lemma_catalog_bits(0);
    }
    v
}

/// The windowed game state.
pub struct State {
    /// The grids of the first player.
    ss0: Subsquares,
    /// The grids of the second player.
    ss1: Subsquares,
    /// The grids of the third player.
    ss2: Subsquares,
    /// The grids of the fourth player.
    ss3: Subsquares,
    /// Playable pieces for every player, the low bits of a `u128`:
    /// one bit per catalog pattern group, and one for the 5-long
    /// straight piece.
    player_pieces: Vec<u128>,
    /// The piece catalog.
    pieces: Vec<Piece>,
}

impl State {
    /// The exclusion grid of player `p`.
    pub closed spec fn occ(&self, p: int) -> Seq<u16> {
        if p == 0 {
            self.ss0.occ()
        } else if p == 1 {
            self.ss1.occ()
        } else if p == 2 {
            self.ss2.occ()
        } else {
            self.ss3.occ()
        }
    }

    /// The corner grid of player `p`.
    pub closed spec fn cor(&self, p: int) -> Seq<u16> {
        if p == 0 {
            self.ss0.cor()
        } else if p == 1 {
            self.ss1.cor()
        } else if p == 2 {
            self.ss2.cor()
        } else {
            self.ss3.cor()
        }
    }

    /// The inventory bit-set of player `p`.
    pub closed spec fn avail(&self, p: int) -> u128 {
        self.player_pieces@[p]
    }

    /// The catalog of this state.
    pub closed spec fn cat(&self) -> Seq<Piece> {
        self.pieces@
    }

    /// All grids are conformal, the inventories exist, and the
    /// catalog is exactly the standard windowed table.
    pub closed spec fn wf(&self) -> bool {
        &&& self.ss0.wf()
        &&& self.ss1.wf()
        &&& self.ss2.wf()
        &&& self.ss3.wf()
        &&& self.player_pieces_len() == 4
        &&& self.cat().len() == 89
        &&& catalog_pinned(self.cat())
        &&& forall|i: int| 0 <= i < 89 ==> (#[trigger] self.cat()[i]).wf()
        &&& self.cat()[9].width == 4 && self.cat()[9].height == 1
        &&& self.cat()[10].width == 1 && self.cat()[10].height == 4
        &&& bit16(self.cat()[9].as_u16, 3)
        &&& bit16(self.cat()[10].as_u16, 12)
    }

    /// The length of the inventory vector.
    pub closed spec fn player_pieces_len(&self) -> int {
        self.player_pieces@.len() as int
    }

    /// A fresh 20x20 game: empty grids, one starting corner per
    /// player at that player's board corner, full inventories.
    pub fn new(w: usize, h: usize) -> (r: State)
        requires
            w == 20,
            h == 20,
        ensures
            r.wf(),
            catalog_pinned(r.cat()),
            forall|p: int, x: int, y: int|
                0 <= p < 4 && 0 <= x < 20 && 0 <= y < 20 ==> !(#[trigger] log_bit(r.occ(p), x, y)),
            forall|p: int, x: int, y: int|
                0 <= p < 4 && 0 <= x < 20 && 0 <= y < 20 ==> (#[trigger] log_bit(r.cor(p), x, y)
                    == ((p == 0 && x == 0 && y == 0) || (p == 1 && x == 19 && y == 0) || (p == 2
                    && x == 19 && y == 19) || (p == 3 && x == 0 && y == 19))),
            forall|p: int, i: int|
                0 <= p < 4 && 0 <= i < 128 ==> (#[trigger] avail_bit(r.avail(p), i) == (i < 90)),
    {
        let mut ss0 = Subsquares::default();
        let mut ss1 = Subsquares::default();
        let mut ss2 = Subsquares::default();
        let mut ss3 = Subsquares::default();
        ss0.set_bit(true, 0, 0);
        ss1.set_bit(true, 19, 0);
        ss2.set_bit(true, 19, 19);
        ss3.set_bit(true, 0, 19);
        proof {
            lemma_catalog_bits(0);
        }
        let full: u128 = (1u128 << 90) - 1;
        let mut player_pieces: Vec<u128> = Vec::new();
        player_pieces.push(full);
        player_pieces.push(full);
        player_pieces.push(full);
        player_pieces.push(full);
        let pieces = windowed_catalog();
        let r = State { ss0, ss1, ss2, ss3, player_pieces, pieces };
        proof {
            assert forall|p: int, i: int|
                0 <= p < 4 && 0 <= i < 128 implies (#[trigger] avail_bit(r.avail(p), i) == (i
                < 90)) by {
                lemma_catalog_bits(i as u128);
            }
        }
        r
    }

    /// Get the possible moves for a player, without duplicates: every
    /// remaining pattern at every anchor whose exclusion window it
    /// avoids and whose corner window it meets, plus the 5-long
    /// straight placements derived from the 4-long matches by the two
    /// independent extension checks.
    pub fn get_moves(&self, player: &Player) -> (r: Vec<Move>)
        requires
            self.wf(),
        ensures
            forall|mv: Move|
                #[trigger] r@.contains(mv) <==> (self.regular_move(player.spec_id(), mv)
                    || self.wide_move(player.spec_id(), mv) || self.tall_move(
                    player.spec_id(),
                    mv,
                )),
            distinct_seq(r@),
    {
        let p = player.id();
        let mut moves: Vec<Move> = Vec::new();
        let mut piece: usize = 0;
        while piece < 89
            invariant
                piece <= 89,
                p == player.spec_id(),
                self.wf(),
                forall|mv: Move|
                    #[trigger] moves@.contains(mv) <==> ((self.regular_move(p as int, mv)
                        && mv.piece < piece) || (self.wide_move(p as int, mv) && piece > 9) || (
                    self.tall_move(p as int, mv) && piece > 10)),
                distinct_seq(moves@),
                forall|k: int|
                    0 <= k < moves@.len() ==> (#[trigger] moves@[k]).piece < piece || (
                    moves@[k].piece == 89 && piece > 9) || (moves@[k].piece == 90 && piece > 10),
            decreases 89 - piece,
        {
            if (self.player_pieces[p] >> (piece as u32)) & 1 == 1 {
                let pat = self.pieces[piece].as_u16;
                let mut tmp: Vec<Move> = Vec::new();
                self.subsquares(p).test_piece(&mut tmp, piece, pat);
                let mut ext: Vec<Move> = Vec::new();
                if piece == 9 && (self.player_pieces[p] >> 89u32) & 1 == 1 {
                    ext = self.extend_wide(p, &tmp);
                }
                if piece == 10 && (self.player_pieces[p] >> 89u32) & 1 == 1 {
                    ext = self.extend_tall(p, &tmp);
                }
                let ghost m0 = moves@;
                let ghost t0 = tmp@;
                let ghost e0 = ext@;
                proof {
                    assert forall|k1: int, k2: int|
                        #![trigger t0[k1], t0[k2]]
                        0 <= k1 < k2 < t0.len() implies t0[k1] != t0[k2] by {
                        assert(move_anchor_index(t0[k1]) < move_anchor_index(t0[k2]));
                    }
                    assert(distinct_seq(t0));
                    assert forall|x2: Move| m0.contains(x2) implies !t0.contains(x2) by {}
                    lemma_distinct_add(m0, t0);
                    assert forall|x2: Move| (m0 + t0).contains(x2) implies !e0.contains(x2) by {
                        lemma_add_contains(m0, t0, x2);
                    }
                    lemma_distinct_add(m0 + t0, e0);
                }
                moves.append(&mut tmp);
                moves.append(&mut ext);
                proof {
                    assert(moves@ == m0 + t0 + e0);
                    assert forall|mv: Move| #[trigger]
                        moves@.contains(mv) <==> (m0.contains(mv) || t0.contains(mv)
                            || e0.contains(mv)) by {
                        lemma_add_contains(m0 + t0, e0, mv);
                        lemma_add_contains(m0, t0, mv);
                    }
                    assert(avail_bit(self.avail(p as int), piece as int));
                    assert forall|k: int|
                        0 <= k < moves@.len() implies (#[trigger] moves@[k]).piece < piece + 1 || (
                        moves@[k].piece == 89 && piece + 1 > 9) || (moves@[k].piece == 90 && piece
                        + 1 > 10) by {
                        assert(moves@.contains(moves@[k]));
                    }
                }
            } else {
                proof {
                    assert(!avail_bit(self.avail(p as int), piece as int));
                }
            }
            piece += 1;
        }
        moves
    }

    /// One raw exclusion window of one player.
    pub fn occupied_window(&self, p: usize, i: usize) -> (r: u16)
        requires
            self.wf(),
            p < 4,
            i < 400,
        ensures
            r == self.occ(p as int)[i as int],
    {
        self.subsquares(p).occupied_window(i)
    }

    /// One raw corner window of one player.
    pub fn corner_window(&self, p: usize, i: usize) -> (r: u16)
        requires
            self.wf(),
            p < 4,
            i < 400,
        ensures
            r == self.cor(p as int)[i as int],
    {
        self.subsquares(p).corner_window(i)
    }

    /// Check that every player's grids are conformal.  Under the
    /// consistency invariant this always succeeds.
    pub fn check(&self) -> (r: bool)
        requires
            self.wf(),
        ensures
            r,
    {
        self.ss0.check() && self.ss1.check() && self.ss2.check() && self.ss3.check()
    }

    /// The grids of one player.
    fn subsquares(&self, p: usize) -> (r: &Subsquares)
        requires
            p < 4,
        ensures
            r.occ() == self.occ(p as int),
            r.cor() == self.cor(p as int),
    {
        if p == 0 {
            &self.ss0
        } else if p == 1 {
            &self.ss1
        } else if p == 2 {
            &self.ss2
        } else {
            &self.ss3
        }
    }

    /// `mv` plays a catalog pattern the player still holds at an
    /// anchor that passes the window test.
    pub open spec fn regular_move(&self, p: int, mv: Move) -> bool {
        &&& mv.piece < 89
        &&& avail_bit(self.avail(p), mv.piece as int)
        &&& exists|i: int|
            0 <= i < 400 && mv.pos == ((i % 20) as i8, (i / 20) as i8) && win_ok(
                self.occ(p),
                self.cor(p),
                self.cat()[mv.piece as int].as_u16,
                i,
            )
    }

    /// `mv` places the horizontal 5-long straight piece, derived from
    /// a 4-long match by one of the two independent extension checks.
    pub open spec fn wide_move(&self, p: int, mv: Move) -> bool {
        &&& mv.piece == 89
        &&& avail_bit(self.avail(p), 9)
        &&& avail_bit(self.avail(p), 89)
        &&& exists|i: int|
            0 <= i < 400 && win_ok(self.occ(p), self.cor(p), self.cat()[9].as_u16, i) && ((
            ext_wide_near(self.occ(p), self.cor(p), i % 20, i / 20) && mv.pos == (
                ((i % 20) as i8),
                ((i / 20) as i8),
            )) || (ext_wide_far(self.occ(p), self.cor(p), i % 20, i / 20) && mv.pos == (
                ((i % 20 - 1) as i8),
                ((i / 20) as i8),
            )))
    }

    /// `mv` places the vertical 5-long straight piece, derived from a
    /// 4-long match by one of the two independent extension checks.
    pub open spec fn tall_move(&self, p: int, mv: Move) -> bool {
        &&& mv.piece == 90
        &&& avail_bit(self.avail(p), 10)
        &&& avail_bit(self.avail(p), 89)
        &&& exists|i: int|
            0 <= i < 400 && win_ok(self.occ(p), self.cor(p), self.cat()[10].as_u16, i) && ((
            ext_tall_near(self.occ(p), self.cor(p), i % 20, i / 20) && mv.pos == (
                ((i % 20) as i8),
                ((i / 20) as i8),
            )) || (ext_tall_far(self.occ(p), self.cor(p), i % 20, i / 20) && mv.pos == (
                ((i % 20) as i8),
                ((i / 20 - 1) as i8),
            )))
    }

    /// Append `mv` unless it is already present.
    fn push_unique(r: &mut Vec<Move>, mv: Move)
        requires
            crate::state::distinct_seq(old(r)@),
        ensures
            crate::state::distinct_seq(final(r)@),
            forall|m2: Move|
                #[trigger] final(r)@.contains(m2) <==> (old(r)@.contains(m2) || m2 == mv),
    {
        let mut dup = false;
        let mut k: usize = 0;
        while k < r.len()
            invariant
                k <= r@.len(),
                dup == exists|k2: int| 0 <= k2 < k && (#[trigger] r@[k2]) == mv,
            decreases r@.len() - k,
        {
            let m = r[k];
            if m.piece == mv.piece && m.pos.0 == mv.pos.0 && m.pos.1 == mv.pos.1 {
                proof {
                    assert(r@[k as int] == mv);
                }
                dup = true;
            }
            k += 1;
        }
        if !dup {
            let ghost old_r = r@;
            r.push(mv);
            proof {
                crate::state::lemma_distinct_push(old_r, mv);
                assert forall|m2: Move| #[trigger]
                    r@.contains(m2) <==> (old_r.contains(m2) || m2 == mv) by {
                    crate::piece::lemma_push_contains(old_r, mv, m2);
                }
            }
        }
    }

    /// Run the two horizontal extension checks over every 4-long
    /// match; the checks are independent, so a match whose both ends
    /// extend yields both 5-long moves.
    fn extend_wide(&self, p: usize, tmp: &Vec<Move>) -> (r: Vec<Move>)
        requires
            self.wf(),
            p < 4,
            forall|mv: Move|
                #[trigger] tmp@.contains(mv) <==> (mv.piece == 9 && exists|i: int|
                    0 <= i < 400 && mv.pos == ((i % 20) as i8, (i / 20) as i8) && win_ok(
                        self.occ(p as int),
                        self.cor(p as int),
                        self.cat()[9].as_u16,
                        i,
                    )),
        ensures
            crate::state::distinct_seq(r@),
            forall|mv: Move|
                #[trigger] r@.contains(mv) <==> (mv.piece == 89 && exists|i: int|
                    0 <= i < 400 && win_ok(self.occ(p as int), self.cor(p as int), self.cat()[9].as_u16, i)
                        && ((ext_wide_near(self.occ(p as int), self.cor(p as int), i % 20, i / 20)
                        && mv.pos == (((i % 20) as i8), ((i / 20) as i8))) || (ext_wide_far(
                        self.occ(p as int),
                        self.cor(p as int),
                        i % 20,
                        i / 20,
                    ) && mv.pos == (((i % 20 - 1) as i8), ((i / 20) as i8))))),
    {
        let ss = self.subsquares(p);
        let mut r: Vec<Move> = Vec::new();
        let mut k: usize = 0;
        while k < tmp.len()
            invariant
                k <= tmp@.len(),
                self.wf(),
                p < 4,
                ss.occ() == self.occ(p as int),
                ss.cor() == self.cor(p as int),
                ss.wf(),
                crate::state::distinct_seq(r@),
                forall|mv: Move|
                    #[trigger] tmp@.contains(mv) <==> (mv.piece == 9 && exists|i: int|
                        0 <= i < 400 && mv.pos == ((i % 20) as i8, (i / 20) as i8) && win_ok(
                            self.occ(p as int),
                            self.cor(p as int),
                            self.cat()[9].as_u16,
                            i,
                        )),
                forall|mv: Move|
                    #[trigger] r@.contains(mv) <==> (mv.piece == 89 && exists|k2: int|
                        0 <= k2 < k && ((ext_wide_near(
                            self.occ(p as int),
                            self.cor(p as int),
                            (#[trigger] tmp@[k2]).pos.0 as int,
                            tmp@[k2].pos.1 as int,
                        ) && mv.pos == tmp@[k2].pos) || (ext_wide_far(
                            self.occ(p as int),
                            self.cor(p as int),
                            tmp@[k2].pos.0 as int,
                            tmp@[k2].pos.1 as int,
                        ) && mv.pos == (((tmp@[k2].pos.0 - 1) as i8), tmp@[k2].pos.1)))),
            decreases tmp@.len() - k,
        {
            let m = tmp[k];
            proof {
                assert(tmp@.contains(tmp@[k as int]));
            }
            let ghost i0 = choose|i: int|
                0 <= i < 400 && m.pos == ((i % 20) as i8, (i / 20) as i8) && win_ok(
                    self.occ(p as int),
                    self.cor(p as int),
                    self.cat()[9].as_u16,
                    i,
                );
            let x = m.pos.0 as usize;
            let y = m.pos.1 as usize;
            proof {
                // A 4-wide match cannot start past column 16: the
                // window's border bit would meet the pattern.
                assert(x <= 16) by {
                    if x > 16 {
                        let xx = i0 % 20;
                        let yy = i0 / 20;
                        let rx: int = 3;
                        let ry: int = 0;
                        assert(xx == x as int);
                        assert(i0 == yy * 20 + xx);
                        assert(bit16(self.occ(p as int)[yy * 20 + xx], 4 * ry + rx));
                        lemma_u16_and_bit(self.occ(p as int)[i0], self.cat()[9].as_u16, 3);
                        assert(false);
                    }
                }
            }
            let c_near = match ss.get_corner(x, y) {
                Some(v) => v,
                None => false,
            };
            let occ_far = match ss.get_occupied(x + 4, y) {
                Some(v) => v,
                None => true,
            };
            let c_far = match ss.get_corner(x + 3, y) {
                Some(v) => v,
                None => false,
            };
            let occ_near = if x > 0 {
                match ss.get_occupied(x - 1, y) {
                    Some(v) => v,
                    None => true,
                }
            } else {
                true
            };
            let ghost r_before = r@;
            if c_near && !occ_far {
                proof {
                    assert(ext_wide_near(self.occ(p as int), self.cor(p as int), x as int, y as int));
                }
                Self::push_unique(&mut r, Move::new(89, (x as i8, y as i8)));
            }
            if c_far && x > 0 && !occ_near {
                proof {
                    assert(ext_wide_far(self.occ(p as int), self.cor(p as int), x as int, y as int));
                }
                Self::push_unique(&mut r, Move::new(89, ((x - 1) as i8, y as i8)));
            }
            proof {
                assert forall|mv: Move| #[trigger]
                    r@.contains(mv) <==> (mv.piece == 89 && exists|k2: int|
                    0 <= k2 < k + 1 && ((ext_wide_near(
                        self.occ(p as int),
                        self.cor(p as int),
                        (#[trigger] tmp@[k2]).pos.0 as int,
                        tmp@[k2].pos.1 as int,
                    ) && mv.pos == tmp@[k2].pos) || (ext_wide_far(
                        self.occ(p as int),
                        self.cor(p as int),
                        tmp@[k2].pos.0 as int,
                        tmp@[k2].pos.1 as int,
                    ) && mv.pos == (((tmp@[k2].pos.0 - 1) as i8), tmp@[k2].pos.1)))) by {
                    if r@.contains(mv) && !r_before.contains(mv) {
                        assert(tmp@[k as int].pos == m.pos);
                    }
                    if mv.piece == 89 && exists|k2: int|
                        0 <= k2 < k + 1 && ((ext_wide_near(
                            self.occ(p as int),
                            self.cor(p as int),
                            (#[trigger] tmp@[k2]).pos.0 as int,
                            tmp@[k2].pos.1 as int,
                        ) && mv.pos == tmp@[k2].pos) || (ext_wide_far(
                            self.occ(p as int),
                            self.cor(p as int),
                            tmp@[k2].pos.0 as int,
                            tmp@[k2].pos.1 as int,
                        ) && mv.pos == (((tmp@[k2].pos.0 - 1) as i8), tmp@[k2].pos.1))) {
                        let k2 = choose|k2: int|
                            0 <= k2 < k + 1 && ((ext_wide_near(
                                self.occ(p as int),
                                self.cor(p as int),
                                (#[trigger] tmp@[k2]).pos.0 as int,
                                tmp@[k2].pos.1 as int,
                            ) && mv.pos == tmp@[k2].pos) || (ext_wide_far(
                                self.occ(p as int),
                                self.cor(p as int),
                                tmp@[k2].pos.0 as int,
                                tmp@[k2].pos.1 as int,
                            ) && mv.pos == (((tmp@[k2].pos.0 - 1) as i8), tmp@[k2].pos.1)));
                        if k2 == k as int {
                            assert(r@.contains(mv));
                        }
                    }
                }
            }
            k += 1;
        }
        proof {
            assert forall|mv: Move| #[trigger]
                r@.contains(mv) <==> (mv.piece == 89 && exists|i: int|
                    0 <= i < 400 && win_ok(self.occ(p as int), self.cor(p as int), self.cat()[9].as_u16, i)
                        && ((ext_wide_near(self.occ(p as int), self.cor(p as int), i % 20, i / 20)
                        && mv.pos == (((i % 20) as i8), ((i / 20) as i8))) || (ext_wide_far(
                        self.occ(p as int),
                        self.cor(p as int),
                        i % 20,
                        i / 20,
                    ) && mv.pos == (((i % 20 - 1) as i8), ((i / 20) as i8))))) by {
                if r@.contains(mv) {
                    let k2 = choose|k2: int|
                        0 <= k2 < tmp@.len() && ((ext_wide_near(
                            self.occ(p as int),
                            self.cor(p as int),
                            (#[trigger] tmp@[k2]).pos.0 as int,
                            tmp@[k2].pos.1 as int,
                        ) && mv.pos == tmp@[k2].pos) || (ext_wide_far(
                            self.occ(p as int),
                            self.cor(p as int),
                            tmp@[k2].pos.0 as int,
                            tmp@[k2].pos.1 as int,
                        ) && mv.pos == (((tmp@[k2].pos.0 - 1) as i8), tmp@[k2].pos.1)));
                    assert(tmp@.contains(tmp@[k2]));
                }
                if mv.piece == 89 && exists|i: int|
                    0 <= i < 400 && win_ok(self.occ(p as int), self.cor(p as int), self.cat()[9].as_u16, i)
                        && ((ext_wide_near(self.occ(p as int), self.cor(p as int), i % 20, i / 20)
                        && mv.pos == (((i % 20) as i8), ((i / 20) as i8))) || (ext_wide_far(
                        self.occ(p as int),
                        self.cor(p as int),
                        i % 20,
                        i / 20,
                    ) && mv.pos == (((i % 20 - 1) as i8), ((i / 20) as i8)))) {
                    let i = choose|i: int|
                        0 <= i < 400 && win_ok(
                            self.occ(p as int),
                            self.cor(p as int),
                            self.cat()[9].as_u16,
                            i,
                        ) && ((ext_wide_near(self.occ(p as int), self.cor(p as int), i % 20, i / 20)
                            && mv.pos == (((i % 20) as i8), ((i / 20) as i8))) || (ext_wide_far(
                            self.occ(p as int),
                            self.cor(p as int),
                            i % 20,
                            i / 20,
                        ) && mv.pos == (((i % 20 - 1) as i8), ((i / 20) as i8))));
                    let m4 = Move { piece: 9, pos: ((i % 20) as i8, (i / 20) as i8) };
                    assert(tmp@.contains(m4));
                    let k2 = choose|k2: int| 0 <= k2 < tmp@.len() && tmp@[k2] == m4;
                }
            }
        }
        r
    }

    /// Run the two vertical extension checks over every 4-tall match;
    /// the checks are independent.
    fn extend_tall(&self, p: usize, tmp: &Vec<Move>) -> (r: Vec<Move>)
        requires
            self.wf(),
            p < 4,
            forall|mv: Move|
                #[trigger] tmp@.contains(mv) <==> (mv.piece == 10 && exists|i: int|
                    0 <= i < 400 && mv.pos == ((i % 20) as i8, (i / 20) as i8) && win_ok(
                        self.occ(p as int),
                        self.cor(p as int),
                        self.cat()[10].as_u16,
                        i,
                    )),
        ensures
            crate::state::distinct_seq(r@),
            forall|mv: Move|
                #[trigger] r@.contains(mv) <==> (mv.piece == 90 && exists|i: int|
                    0 <= i < 400 && win_ok(self.occ(p as int), self.cor(p as int), self.cat()[10].as_u16, i)
                        && ((ext_tall_near(self.occ(p as int), self.cor(p as int), i % 20, i / 20)
                        && mv.pos == (((i % 20) as i8), ((i / 20) as i8))) || (ext_tall_far(
                        self.occ(p as int),
                        self.cor(p as int),
                        i % 20,
                        i / 20,
                    ) && mv.pos == (((i % 20) as i8), ((i / 20 - 1) as i8))))),
    {
        let ss = self.subsquares(p);
        let mut r: Vec<Move> = Vec::new();
        let mut k: usize = 0;
        while k < tmp.len()
            invariant
                k <= tmp@.len(),
                self.wf(),
                p < 4,
                ss.occ() == self.occ(p as int),
                ss.cor() == self.cor(p as int),
                ss.wf(),
                crate::state::distinct_seq(r@),
                forall|mv: Move|
                    #[trigger] tmp@.contains(mv) <==> (mv.piece == 10 && exists|i: int|
                        0 <= i < 400 && mv.pos == ((i % 20) as i8, (i / 20) as i8) && win_ok(
                            self.occ(p as int),
                            self.cor(p as int),
                            self.cat()[10].as_u16,
                            i,
                        )),
                forall|mv: Move|
                    #[trigger] r@.contains(mv) <==> (mv.piece == 90 && exists|k2: int|
                        0 <= k2 < k && ((ext_tall_near(
                            self.occ(p as int),
                            self.cor(p as int),
                            (#[trigger] tmp@[k2]).pos.0 as int,
                            tmp@[k2].pos.1 as int,
                        ) && mv.pos == tmp@[k2].pos) || (ext_tall_far(
                            self.occ(p as int),
                            self.cor(p as int),
                            tmp@[k2].pos.0 as int,
                            tmp@[k2].pos.1 as int,
                        ) && mv.pos == (tmp@[k2].pos.0, ((tmp@[k2].pos.1 - 1) as i8))))),
            decreases tmp@.len() - k,
        {
            let m = tmp[k];
            proof {
                assert(tmp@.contains(tmp@[k as int]));
            }
            let ghost i0 = choose|i: int|
                0 <= i < 400 && m.pos == ((i % 20) as i8, (i / 20) as i8) && win_ok(
                    self.occ(p as int),
                    self.cor(p as int),
                    self.cat()[10].as_u16,
                    i,
                );
            let x = m.pos.0 as usize;
            let y = m.pos.1 as usize;
            proof {
                // A 4-tall match cannot start past row 16.
                assert(y <= 16) by {
                    if y > 16 {
                        let xx = i0 % 20;
                        let yy = i0 / 20;
                        let rx: int = 0;
                        let ry: int = 3;
                        assert(yy == y as int);
                        assert(i0 == yy * 20 + xx);
                        assert(bit16(self.occ(p as int)[yy * 20 + xx], 4 * ry + rx));
                        lemma_u16_and_bit(self.occ(p as int)[i0], self.cat()[10].as_u16, 12);
                        assert(false);
                    }
                }
            }
            let c_near = match ss.get_corner(x, y) {
                Some(v) => v,
                None => false,
            };
            let occ_far = match ss.get_occupied(x, y + 4) {
                Some(v) => v,
                None => true,
            };
            let c_far = match ss.get_corner(x, y + 3) {
                Some(v) => v,
                None => false,
            };
            let occ_near = if y > 0 {
                match ss.get_occupied(x, y - 1) {
                    Some(v) => v,
                    None => true,
                }
            } else {
                true
            };
            let ghost r_before = r@;
            if c_near && !occ_far {
                proof {
                    assert(ext_tall_near(self.occ(p as int), self.cor(p as int), x as int, y as int));
                }
                Self::push_unique(&mut r, Move::new(90, (x as i8, y as i8)));
            }
            if c_far && y > 0 && !occ_near {
                proof {
                    assert(ext_tall_far(self.occ(p as int), self.cor(p as int), x as int, y as int));
                }
                Self::push_unique(&mut r, Move::new(90, (x as i8, (y - 1) as i8)));
            }
            proof {
                assert forall|mv: Move| #[trigger]
                    r@.contains(mv) <==> (mv.piece == 90 && exists|k2: int|
                    0 <= k2 < k + 1 && ((ext_tall_near(
                        self.occ(p as int),
                        self.cor(p as int),
                        (#[trigger] tmp@[k2]).pos.0 as int,
                        tmp@[k2].pos.1 as int,
                    ) && mv.pos == tmp@[k2].pos) || (ext_tall_far(
                        self.occ(p as int),
                        self.cor(p as int),
                        tmp@[k2].pos.0 as int,
                        tmp@[k2].pos.1 as int,
                    ) && mv.pos == (tmp@[k2].pos.0, ((tmp@[k2].pos.1 - 1) as i8))))) by {
                    if r@.contains(mv) && !r_before.contains(mv) {
                        assert(tmp@[k as int].pos == m.pos);
                    }
                    if mv.piece == 90 && exists|k2: int|
                        0 <= k2 < k + 1 && ((ext_tall_near(
                            self.occ(p as int),
                            self.cor(p as int),
                            (#[trigger] tmp@[k2]).pos.0 as int,
                            tmp@[k2].pos.1 as int,
                        ) && mv.pos == tmp@[k2].pos) || (ext_tall_far(
                            self.occ(p as int),
                            self.cor(p as int),
                            tmp@[k2].pos.0 as int,
                            tmp@[k2].pos.1 as int,
                        ) && mv.pos == (tmp@[k2].pos.0, ((tmp@[k2].pos.1 - 1) as i8)))) {
                        let k2 = choose|k2: int|
                            0 <= k2 < k + 1 && ((ext_tall_near(
                                self.occ(p as int),
                                self.cor(p as int),
                                (#[trigger] tmp@[k2]).pos.0 as int,
                                tmp@[k2].pos.1 as int,
                            ) && mv.pos == tmp@[k2].pos) || (ext_tall_far(
                                self.occ(p as int),
                                self.cor(p as int),
                                tmp@[k2].pos.0 as int,
                                tmp@[k2].pos.1 as int,
                            ) && mv.pos == (tmp@[k2].pos.0, ((tmp@[k2].pos.1 - 1) as i8))));
                        if k2 == k as int {
                            assert(r@.contains(mv));
                        }
                    }
                }
            }
            k += 1;
        }
        proof {
            assert forall|mv: Move| #[trigger]
                r@.contains(mv) <==> (mv.piece == 90 && exists|i: int|
                    0 <= i < 400 && win_ok(self.occ(p as int), self.cor(p as int), self.cat()[10].as_u16, i)
                        && ((ext_tall_near(self.occ(p as int), self.cor(p as int), i % 20, i / 20)
                        && mv.pos == (((i % 20) as i8), ((i / 20) as i8))) || (ext_tall_far(
                        self.occ(p as int),
                        self.cor(p as int),
                        i % 20,
                        i / 20,
                    ) && mv.pos == (((i % 20) as i8), ((i / 20 - 1) as i8))))) by {
                if r@.contains(mv) {
                    let k2 = choose|k2: int|
                        0 <= k2 < tmp@.len() && ((ext_tall_near(
                            self.occ(p as int),
                            self.cor(p as int),
                            (#[trigger] tmp@[k2]).pos.0 as int,
                            tmp@[k2].pos.1 as int,
                        ) && mv.pos == tmp@[k2].pos) || (ext_tall_far(
                            self.occ(p as int),
                            self.cor(p as int),
                            tmp@[k2].pos.0 as int,
                            tmp@[k2].pos.1 as int,
                        ) && mv.pos == (tmp@[k2].pos.0, ((tmp@[k2].pos.1 - 1) as i8))));
                    assert(tmp@.contains(tmp@[k2]));
                }
                if mv.piece == 90 && exists|i: int|
                    0 <= i < 400 && win_ok(self.occ(p as int), self.cor(p as int), self.cat()[10].as_u16, i)
                        && ((ext_tall_near(self.occ(p as int), self.cor(p as int), i % 20, i / 20)
                        && mv.pos == (((i % 20) as i8), ((i / 20) as i8))) || (ext_tall_far(
                        self.occ(p as int),
                        self.cor(p as int),
                        i % 20,
                        i / 20,
                    ) && mv.pos == (((i % 20) as i8), ((i / 20 - 1) as i8)))) {
                    let i = choose|i: int|
                        0 <= i < 400 && win_ok(
                            self.occ(p as int),
                            self.cor(p as int),
                            self.cat()[10].as_u16,
                            i,
                        ) && ((ext_tall_near(self.occ(p as int), self.cor(p as int), i % 20, i / 20)
                            && mv.pos == (((i % 20) as i8), ((i / 20) as i8))) || (ext_tall_far(
                            self.occ(p as int),
                            self.cor(p as int),
                            i % 20,
                            i / 20,
                        ) && mv.pos == (((i % 20) as i8), ((i / 20 - 1) as i8))));
                    let m4 = Move { piece: 10, pos: ((i % 20) as i8, (i / 20) as i8) };
                    assert(tmp@.contains(m4));
                    let k2 = choose|k2: int| 0 <= k2 < tmp@.len() && tmp@[k2] == m4;
                }
            }
        }
        r
    }
}

/// A player must pass exactly when no window passes: the windowed
/// move list is empty if and only if no remaining pattern has an
/// anchor whose exclusion window it avoids and whose corner window it
/// meets, and no 4-long match extends to a 5-long placement.
pub proof fn lemma_windowed_no_moves_iff(s: State, player: int, moves: Seq<Move>)
    requires
        forall|mv: Move|
            #[trigger] moves.contains(mv) <==> (s.regular_move(player, mv) || s.wide_move(
                player,
                mv,
            ) || s.tall_move(player, mv)),
    ensures
        moves.len() == 0 <==> !(exists|mv: Move|
            s.regular_move(player, mv) || s.wide_move(player, mv) || s.tall_move(player, mv)),
{
    if moves.len() > 0 {
        assert(moves.contains(moves[0]));
    }
    if exists|mv: Move|
        s.regular_move(player, mv) || s.wide_move(player, mv) || s.tall_move(player, mv) {
        let mv = choose|mv: Move|
            s.regular_move(player, mv) || s.wide_move(player, mv) || s.tall_move(player, mv);
        assert(moves.contains(mv));
    }
}

/// The neighbor pattern of piece `tp` placed at `(x, y)` covers board
/// cell `(cx, cy)`.
pub open spec fn nb_cover(tp: Piece, x: int, y: int, cx: int, cy: int) -> bool {
    &&& 0 <= cx - x + 1 < 6
    &&& 0 <= cy - y + 1 < 6
    &&& bit8(tp.neighbor_mask@[cy - y + 1], cx - x + 1)
}

/// The corner pattern of piece `tp` placed at `(x, y)` covers board
/// cell `(cx, cy)`.
pub open spec fn crn_cover(tp: Piece, x: int, y: int, cx: int, cy: int) -> bool {
    &&& 0 <= cx - x + 1 < 6
    &&& 0 <= cy - y + 1 < 6
    &&& bit8(tp.corner_mask@[cy - y + 1], cx - x + 1)
}

/// The piece `tp` placed at `(x, y)` occupies board cell `(cx, cy)`.
pub open spec fn occ_cover(tp: Piece, x: int, y: int, cx: int, cy: int) -> bool {
    pcell16(tp.as_u16, tp.width as int, tp.height as int, cx - x, cy - y)
}

/// A cell of the 5-long straight piece, horizontal or vertical, in
/// coordinates relative to its anchor.
pub open spec fn s5_cell(w5: bool, dx: int, dy: int) -> bool {
    if w5 {
        0 <= dx < 5 && dy == 0
    } else {
        dx == 0 && 0 <= dy < 5
    }
}

/// The neighbor pattern of the 5-long straight piece.
pub open spec fn s5_nb(w5: bool, dx: int, dy: int) -> bool {
    ||| s5_cell(w5, dx, dy)
    ||| s5_cell(w5, dx - 1, dy)
    ||| s5_cell(w5, dx + 1, dy)
    ||| s5_cell(w5, dx, dy - 1)
    ||| s5_cell(w5, dx, dy + 1)
}

/// The corner pattern of the 5-long straight piece.
pub open spec fn s5_crn(w5: bool, dx: int, dy: int) -> bool {
    exists|dd: int|
        0 <= dd < 4 && s5_cell(w5, dx - crate::piece::corner_dx(dd), dy - crate::piece::corner_dy(dd))
            && !s5_cell(w5, dx, dy - crate::piece::corner_dy(dd)) && !s5_cell(
            w5,
            dx - crate::piece::corner_dx(dd),
            dy,
        )
}

/// One cell of the 5-long straight piece.
fn s5_cell_exec(w5: bool, dx: i32, dy: i32) -> (r: bool)
    ensures
        r == s5_cell(w5, dx as int, dy as int),
{
    if w5 {
        0 <= dx && dx < 5 && dy == 0
    } else {
        dx == 0 && 0 <= dy && dy < 5
    }
}

/// One bit of the neighbor pattern of the 5-long straight piece.
fn s5_nb_exec(w5: bool, dx: i32, dy: i32) -> (r: bool)
    requires
        -64 < dx < 64,
        -64 < dy < 64,
    ensures
        r == s5_nb(w5, dx as int, dy as int),
{
    s5_cell_exec(w5, dx, dy) || s5_cell_exec(w5, dx - 1, dy) || s5_cell_exec(w5, dx + 1, dy)
        || s5_cell_exec(w5, dx, dy - 1) || s5_cell_exec(w5, dx, dy + 1)
}

/// One bit of the corner pattern of the 5-long straight piece.
fn s5_crn_exec(w5: bool, dx: i32, dy: i32) -> (r: bool)
    requires
        -64 < dx < 64,
        -64 < dy < 64,
    ensures
        r == s5_crn(w5, dx as int, dy as int),
{
    let t0 = s5_cell_exec(w5, dx - 1, dy - 1) && !s5_cell_exec(w5, dx, dy - 1) && !s5_cell_exec(
        w5,
        dx - 1,
        dy,
    );
    let t1 = s5_cell_exec(w5, dx + 1, dy - 1) && !s5_cell_exec(w5, dx, dy - 1) && !s5_cell_exec(
        w5,
        dx + 1,
        dy,
    );
    let t2 = s5_cell_exec(w5, dx - 1, dy + 1) && !s5_cell_exec(w5, dx, dy + 1) && !s5_cell_exec(
        w5,
        dx - 1,
        dy,
    );
    let t3 = s5_cell_exec(w5, dx + 1, dy + 1) && !s5_cell_exec(w5, dx, dy + 1) && !s5_cell_exec(
        w5,
        dx + 1,
        dy,
    );
    let set = t0 || t1 || t2 || t3;
    proof {
        let dxi = dx as int;
        let dyi = dy as int;
        if set {
            if t0 {
                assert(s5_cell(w5, dxi - crate::piece::corner_dx(0), dyi - crate::piece::corner_dy(
                    0,
                )) && !s5_cell(w5, dxi, dyi - crate::piece::corner_dy(0)) && !s5_cell(w5, dxi
                    - crate::piece::corner_dx(0), dyi));
            } else if t1 {
                assert(s5_cell(w5, dxi - crate::piece::corner_dx(1), dyi - crate::piece::corner_dy(
                    1,
                )) && !s5_cell(w5, dxi, dyi - crate::piece::corner_dy(1)) && !s5_cell(w5, dxi
                    - crate::piece::corner_dx(1), dyi));
            } else if t2 {
                assert(s5_cell(w5, dxi - crate::piece::corner_dx(2), dyi - crate::piece::corner_dy(
                    2,
                )) && !s5_cell(w5, dxi, dyi - crate::piece::corner_dy(2)) && !s5_cell(w5, dxi
                    - crate::piece::corner_dx(2), dyi));
            } else {
                assert(s5_cell(w5, dxi - crate::piece::corner_dx(3), dyi - crate::piece::corner_dy(
                    3,
                )) && !s5_cell(w5, dxi, dyi - crate::piece::corner_dy(3)) && !s5_cell(w5, dxi
                    - crate::piece::corner_dx(3), dyi));
            }
        } else {
            if s5_crn(w5, dxi, dyi) {
                let dd = choose|dd: int|
                    0 <= dd < 4 && s5_cell(w5, dxi - crate::piece::corner_dx(dd), dyi
                        - crate::piece::corner_dy(dd)) && !s5_cell(w5, dxi,
                    dyi - crate::piece::corner_dy(dd)) && !s5_cell(w5, dxi
                        - crate::piece::corner_dx(dd), dyi);
                assert(false);
            }
        }
    }
    set
}

impl State {
    /// Set one bit of one grid of one player.
    fn set_bit_p(&mut self, p: usize, corner_grid: bool, x: usize, y: usize)
        requires
            old(self).wf(),
            p < 4,
            x < 20,
            y < 20,
        ensures
            final(self).wf(),
            final(self).cat() == old(self).cat(),
            forall|q: int| 0 <= q < 4 ==> final(self).avail(q) == old(self).avail(q),
            forall|q: int|
                0 <= q < 4 && q != p ==> final(self).occ(q) == old(self).occ(q) && final(self).cor(
                    q,
                ) == old(self).cor(q),
            corner_grid ==> final(self).occ(p as int) == old(self).occ(p as int),
            !corner_grid ==> final(self).cor(p as int) == old(self).cor(p as int),
            corner_grid ==> (forall|x2: int, y2: int|
                0 <= x2 < 20 && 0 <= y2 < 20 ==> (#[trigger] log_bit(
                    final(self).cor(p as int),
                    x2,
                    y2,
                ) == (log_bit(old(self).cor(p as int), x2, y2) || (x2 == x as int && y2
                    == y as int)))),
            !corner_grid ==> (forall|x2: int, y2: int|
                0 <= x2 < 20 && 0 <= y2 < 20 ==> (#[trigger] log_bit(
                    final(self).occ(p as int),
                    x2,
                    y2,
                ) == (log_bit(old(self).occ(p as int), x2, y2) || (x2 == x as int && y2
                    == y as int)))),
    {
        if p == 0 {
            self.ss0.set_bit(corner_grid, x, y);
        } else if p == 1 {
            self.ss1.set_bit(corner_grid, x, y);
        } else if p == 2 {
            self.ss2.set_bit(corner_grid, x, y);
        } else {
            self.ss3.set_bit(corner_grid, x, y);
        }
    }

    /// Clear one corner bit of one player.
    fn clear_cor_bit_p(&mut self, p: usize, x: usize, y: usize)
        requires
            old(self).wf(),
            p < 4,
            x < 20,
            y < 20,
        ensures
            final(self).wf(),
            final(self).cat() == old(self).cat(),
            forall|q: int| 0 <= q < 4 ==> final(self).avail(q) == old(self).avail(q),
            forall|q: int| 0 <= q < 4 ==> final(self).occ(q) == old(self).occ(q),
            forall|q: int| 0 <= q < 4 && q != p ==> final(self).cor(q) == old(self).cor(q),
            forall|x2: int, y2: int|
                0 <= x2 < 20 && 0 <= y2 < 20 ==> (#[trigger] log_bit(
                    final(self).cor(p as int),
                    x2,
                    y2,
                ) == (log_bit(old(self).cor(p as int), x2, y2) && !(x2 == x as int && y2
                    == y as int))),
    {
        if p == 0 {
            self.ss0.clear_bit(true, x, y);
        } else if p == 1 {
            self.ss1.clear_bit(true, x, y);
        } else if p == 2 {
            self.ss2.clear_bit(true, x, y);
        } else {
            self.ss3.clear_bit(true, x, y);
        }
    }

    /// Place a piece: OR the piece's neighbor and corner patterns into
    /// the placing player's grids, OR its raw occupancy into every
    /// other player's exclusion grid, clear the corner bits of every
    /// cell that enters an exclusion grid (corner bits stay a subset
    /// of unexcluded, hence unoccupied, cells), and clear the
    /// inventory bit of the placed base piece.  The caller only ever
    /// passes moves returned by `get_moves`; writes falling beyond
    /// the board edge are dropped, where the windows already read as
    /// occupied.
    pub fn place_piece(&mut self, player: &Player, mv: &Move)
        requires
            old(self).wf(),
            mv.piece <= 90,
        ensures
            final(self).wf(),
            final(self).cat() == old(self).cat(),
            forall|q: int|
                0 <= q < 4 && q != player.spec_id() ==> final(self).avail(q) == old(self).avail(q),
            mv.piece < 89 ==> final(self).avail(player.spec_id()) == old(self).avail(
                player.spec_id(),
            ) & !old(self).cat()[mv.piece as int].id_mask,
            mv.piece >= 89 ==> final(self).avail(player.spec_id()) == old(self).avail(
                player.spec_id(),
            ) & !(1u128 << 89),
            mv.piece < 89 ==> (forall|cx: int, cy: int|
                0 <= cx < 20 && 0 <= cy < 20 ==> (#[trigger] log_bit(
                    final(self).occ(player.spec_id()),
                    cx,
                    cy,
                ) == (log_bit(old(self).occ(player.spec_id()), cx, cy) || nb_cover(
                    old(self).cat()[mv.piece as int],
                    mv.pos.0 as int,
                    mv.pos.1 as int,
                    cx,
                    cy,
                )))),
            mv.piece < 89 ==> (forall|cx: int, cy: int|
                0 <= cx < 20 && 0 <= cy < 20 ==> (#[trigger] log_bit(
                    final(self).cor(player.spec_id()),
                    cx,
                    cy,
                ) == ((log_bit(old(self).cor(player.spec_id()), cx, cy) || crn_cover(
                    old(self).cat()[mv.piece as int],
                    mv.pos.0 as int,
                    mv.pos.1 as int,
                    cx,
                    cy,
                )) && !(box_cover(mv.pos.0 as int, mv.pos.1 as int, cx, cy, 6) && (log_bit(
                    old(self).occ(player.spec_id()),
                    cx,
                    cy,
                ) || nb_cover(
                    old(self).cat()[mv.piece as int],
                    mv.pos.0 as int,
                    mv.pos.1 as int,
                    cx,
                    cy,
                )))))),
            mv.piece < 89 ==> (forall|q: int, cx: int, cy: int|
                0 <= q < 4 && q != player.spec_id() && 0 <= cx < 20 && 0 <= cy < 20 ==> (
                #[trigger] log_bit(final(self).occ(q), cx, cy) == (log_bit(
                    old(self).occ(q),
                    cx,
                    cy,
                ) || occ_cover(
                    old(self).cat()[mv.piece as int],
                    mv.pos.0 as int,
                    mv.pos.1 as int,
                    cx,
                    cy,
                )))),
            mv.piece < 89 ==> (forall|q: int, cx: int, cy: int|
                0 <= q < 4 && q != player.spec_id() && 0 <= cx < 20 && 0 <= cy < 20 ==> (
                #[trigger] log_bit(final(self).cor(q), cx, cy) == (log_bit(
                    old(self).cor(q),
                    cx,
                    cy,
                ) && !occ_cover(
                    old(self).cat()[mv.piece as int],
                    mv.pos.0 as int,
                    mv.pos.1 as int,
                    cx,
                    cy,
                )))),
            mv.piece >= 89 ==> (forall|cx: int, cy: int|
                0 <= cx < 20 && 0 <= cy < 20 ==> (#[trigger] log_bit(
                    final(self).occ(player.spec_id()),
                    cx,
                    cy,
                ) == (log_bit(old(self).occ(player.spec_id()), cx, cy) || s5_nb(
                    mv.piece == 89,
                    cx - mv.pos.0 as int,
                    cy - mv.pos.1 as int,
                )))),
            mv.piece >= 89 ==> (forall|cx: int, cy: int|
                0 <= cx < 20 && 0 <= cy < 20 ==> (#[trigger] log_bit(
                    final(self).cor(player.spec_id()),
                    cx,
                    cy,
                ) == ((log_bit(old(self).cor(player.spec_id()), cx, cy) || s5_crn(
                    mv.piece == 89,
                    cx - mv.pos.0 as int,
                    cy - mv.pos.1 as int,
                )) && !(box_cover(mv.pos.0 as int, mv.pos.1 as int, cx, cy, 7) && (log_bit(
                    old(self).occ(player.spec_id()),
                    cx,
                    cy,
                ) || s5_nb(mv.piece == 89, cx - mv.pos.0 as int, cy - mv.pos.1 as int)))))),
            mv.piece >= 89 ==> (forall|q: int, cx: int, cy: int|
                0 <= q < 4 && q != player.spec_id() && 0 <= cx < 20 && 0 <= cy < 20 ==> (
                #[trigger] log_bit(final(self).occ(q), cx, cy) == (log_bit(
                    old(self).occ(q),
                    cx,
                    cy,
                ) || s5_cell(mv.piece == 89, cx - mv.pos.0 as int, cy - mv.pos.1 as int)))),
            mv.piece >= 89 ==> (forall|q: int, cx: int, cy: int|
                0 <= q < 4 && q != player.spec_id() && 0 <= cx < 20 && 0 <= cy < 20 ==> (
                #[trigger] log_bit(final(self).cor(q), cx, cy) == (log_bit(
                    old(self).cor(q),
                    cx,
                    cy,
                ) && !s5_cell(mv.piece == 89, cx - mv.pos.0 as int, cy - mv.pos.1 as int)))),
            forall|q: int|
                #![trigger final(self).cor(q)]
                0 <= q < 4 && (forall|cx: int, cy: int|
                    0 <= cx < 20 && 0 <= cy < 20 ==> (#[trigger] log_bit(old(self).cor(q), cx, cy)
                        ==> !log_bit(old(self).occ(q), cx, cy))) ==> (forall|cx: int, cy: int|
                    0 <= cx < 20 && 0 <= cy < 20 ==> (#[trigger] log_bit(final(self).cor(q), cx, cy)
                        ==> !log_bit(final(self).occ(q), cx, cy))),
    {
        let ghost s0 = *self;
        let p = player.id();
        let x: i32 = mv.pos.0 as i32;
        let y: i32 = mv.pos.1 as i32;
        let pid = mv.piece;
        if pid < 89 {
            let nm = self.pieces[pid].neighbor_mask;
            let cm = self.pieces[pid].corner_mask;
            let pat = self.pieces[pid].as_u16;
            let im = self.pieces[pid].id_mask;
            let ghost tp = self.cat()[pid as int];
            let v = self.player_pieces[p] & !im;
            self.player_pieces.set(p, v);
            proof {
                assert(self.avail(p as int) == s0.avail(p as int) & !im);
                assert forall|q2: int| 0 <= q2 < 4 && q2 != p implies self.avail(q2) == s0.avail(
                    q2,
                ) by {}
            }
            // First pass over the placing player's own grids: OR the
            // neighbor and corner patterns in.
            let mut b: i32 = 0;
            while b < 6
                invariant
                    0 <= b <= 6,
                    p == player.spec_id(),
                    p < 4,
                    self.wf(),
                    self.cat() == s0.cat(),
                    tp == s0.cat()[pid as int],
                    pid < 89,
                    nm@ == tp.neighbor_mask@,
                    cm@ == tp.corner_mask@,
                    x == mv.pos.0 as i32,
                    y == mv.pos.1 as i32,
                    forall|q: int| 0 <= q < 4 && q != p ==> self.avail(q) == s0.avail(q),
                    self.avail(p as int) == s0.avail(p as int) & !im,
                    im == tp.id_mask,
                    forall|q: int|
                        0 <= q < 4 && q != p ==> self.occ(q) == s0.occ(q) && self.cor(q) == s0.cor(
                            q,
                        ),
                    forall|cx: int, cy: int|
                        0 <= cx < 20 && 0 <= cy < 20 ==> (#[trigger] log_bit(
                            self.occ(p as int),
                            cx,
                            cy,
                        ) == (log_bit(s0.occ(p as int), cx, cy) || (nb_cover(
                            tp,
                            x as int,
                            y as int,
                            cx,
                            cy,
                        ) && cy - y + 1 < b))),
                    forall|cx: int, cy: int|
                        0 <= cx < 20 && 0 <= cy < 20 ==> (#[trigger] log_bit(
                            self.cor(p as int),
                            cx,
                            cy,
                        ) == (log_bit(s0.cor(p as int), cx, cy) || (crn_cover(
                            tp,
                            x as int,
                            y as int,
                            cx,
                            cy,
                        ) && cy - y + 1 < b))),
                decreases 6 - b,
            {
                let mut a: i32 = 0;
                while a < 6
                    invariant
                        0 <= a <= 6,
                        0 <= b < 6,
                        p == player.spec_id(),
                        p < 4,
                        self.wf(),
                        self.cat() == s0.cat(),
                        tp == s0.cat()[pid as int],
                        pid < 89,
                        nm@ == tp.neighbor_mask@,
                        cm@ == tp.corner_mask@,
                        x == mv.pos.0 as i32,
                        y == mv.pos.1 as i32,
                        forall|q: int| 0 <= q < 4 && q != p ==> self.avail(q) == s0.avail(q),
                        self.avail(p as int) == s0.avail(p as int) & !im,
                        im == tp.id_mask,
                        forall|q: int|
                            0 <= q < 4 && q != p ==> self.occ(q) == s0.occ(q) && self.cor(q)
                                == s0.cor(q),
                        forall|cx: int, cy: int|
                            0 <= cx < 20 && 0 <= cy < 20 ==> (#[trigger] log_bit(
                                self.occ(p as int),
                                cx,
                                cy,
                            ) == (log_bit(s0.occ(p as int), cx, cy) || (nb_cover(
                                tp,
                                x as int,
                                y as int,
                                cx,
                                cy,
                            ) && (cy - y + 1 < b || (cy - y + 1 == b && cx - x + 1 < a))))),
                        forall|cx: int, cy: int|
                            0 <= cx < 20 && 0 <= cy < 20 ==> (#[trigger] log_bit(
                                self.cor(p as int),
                                cx,
                                cy,
                            ) == (log_bit(s0.cor(p as int), cx, cy) || (crn_cover(
                                tp,
                                x as int,
                                y as int,
                                cx,
                                cy,
                            ) && (cy - y + 1 < b || (cy - y + 1 == b && cx - x + 1 < a))))),
                    decreases 6 - a,
                {
                    let tx = x + a - 1;
                    let ty = y + b - 1;
                    if 0 <= tx && tx < 20 && 0 <= ty && ty < 20 {
                        if (nm[b as usize] >> (a as u8)) & 1 == 1 {
                            self.set_bit_p(p, false, tx as usize, ty as usize);
                        }
                        if (cm[b as usize] >> (a as u8)) & 1 == 1 {
                            self.set_bit_p(p, true, tx as usize, ty as usize);
                        }
                    }
                    proof {
                        let cxi = x as int + a - 1;
                        let cyi = y as int + b - 1;
                        if 0 <= cxi < 20 && 0 <= cyi < 20 {
                            if bit8(tp.neighbor_mask@[b as int], a as int) {
                                assert(nb_cover(tp, x as int, y as int, cxi, cyi));
                            } else {
                                assert(!nb_cover(tp, x as int, y as int, cxi, cyi));
                            }
                            if bit8(tp.corner_mask@[b as int], a as int) {
                                assert(crn_cover(tp, x as int, y as int, cxi, cyi));
                            } else {
                                assert(!crn_cover(tp, x as int, y as int, cxi, cyi));
                            }
                        }
                    }
                    a += 1;
                }
                b += 1;
            }
            // Second pass: every cell of the influence box that is now
            // excluded stops being a corner candidate.
            let mut b: i32 = 0;
            while b < 6
                invariant
                    0 <= b <= 6,
                    p == player.spec_id(),
                    p < 4,
                    self.wf(),
                    self.cat() == s0.cat(),
                    tp == s0.cat()[pid as int],
                    pid < 89,
                    x == mv.pos.0 as i32,
                    y == mv.pos.1 as i32,
                    forall|q: int| 0 <= q < 4 && q != p ==> self.avail(q) == s0.avail(q),
                    self.avail(p as int) == s0.avail(p as int) & !im,
                    im == tp.id_mask,
                    forall|q: int|
                        0 <= q < 4 && q != p ==> self.occ(q) == s0.occ(q) && self.cor(q) == s0.cor(
                            q,
                        ),
                    forall|cx: int, cy: int|
                        0 <= cx < 20 && 0 <= cy < 20 ==> (#[trigger] log_bit(
                            self.occ(p as int),
                            cx,
                            cy,
                        ) == (log_bit(s0.occ(p as int), cx, cy) || nb_cover(
                            tp,
                            x as int,
                            y as int,
                            cx,
                            cy,
                        ))),
                    forall|cx: int, cy: int|
                        0 <= cx < 20 && 0 <= cy < 20 ==> (#[trigger] log_bit(
                            self.cor(p as int),
                            cx,
                            cy,
                        ) == ((log_bit(s0.cor(p as int), cx, cy) || crn_cover(
                            tp,
                            x as int,
                            y as int,
                            cx,
                            cy,
                        )) && !(box_cover(x as int, y as int, cx, cy, 6) && cy - y + 1 < b
                            && log_bit(self.occ(p as int), cx, cy)))),
                decreases 6 - b,
            {
                let mut a: i32 = 0;
                while a < 6
                    invariant
                        0 <= a <= 6,
                        0 <= b < 6,
                        p == player.spec_id(),
                        p < 4,
                        self.wf(),
                        self.cat() == s0.cat(),
                        tp == s0.cat()[pid as int],
                        pid < 89,
                        x == mv.pos.0 as i32,
                        y == mv.pos.1 as i32,
                        forall|q: int| 0 <= q < 4 && q != p ==> self.avail(q) == s0.avail(q),
                        self.avail(p as int) == s0.avail(p as int) & !im,
                        im == tp.id_mask,
                        forall|q: int|
                            0 <= q < 4 && q != p ==> self.occ(q) == s0.occ(q) && self.cor(q)
                                == s0.cor(q),
                        forall|cx: int, cy: int|
                            0 <= cx < 20 && 0 <= cy < 20 ==> (#[trigger] log_bit(
                                self.occ(p as int),
                                cx,
                                cy,
                            ) == (log_bit(s0.occ(p as int), cx, cy) || nb_cover(
                                tp,
                                x as int,
                                y as int,
                                cx,
                                cy,
                            ))),
                        forall|cx: int, cy: int|
                            0 <= cx < 20 && 0 <= cy < 20 ==> (#[trigger] log_bit(
                                self.cor(p as int),
                                cx,
                                cy,
                            ) == ((log_bit(s0.cor(p as int), cx, cy) || crn_cover(
                                tp,
                                x as int,
                                y as int,
                                cx,
                                cy,
                            )) && !(box_cover(x as int, y as int, cx, cy, 6) && (cy - y + 1 < b || (
                            cy - y + 1 == b && cx - x + 1 < a)) && log_bit(
                                self.occ(p as int),
                                cx,
                                cy,
                            )))),
                    decreases 6 - a,
                {
                    let tx = x + a - 1;
                    let ty = y + b - 1;
                    if 0 <= tx && tx < 20 && 0 <= ty && ty < 20 {
                        let occupied = match self.subsquares(p).get_occupied(
                            tx as usize,
                            ty as usize,
                        ) {
                            Some(v) => v,
                            None => false,
                        };
                        if occupied {
                            self.clear_cor_bit_p(p, tx as usize, ty as usize);
                        }
                    }
                    a += 1;
                }
                b += 1;
            }
            // Every other player's exclusion grid takes the raw
            // occupancy, and loses the covered corner candidates.
            let mut q: usize = 0;
            while q < 4
                invariant
                    q <= 4,
                    p == player.spec_id(),
                    p < 4,
                    self.wf(),
                    self.cat() == s0.cat(),
                    tp == s0.cat()[pid as int],
                    pid < 89,
                    x == mv.pos.0 as i32,
                    y == mv.pos.1 as i32,
                    pat == tp.as_u16,
                    forall|q2: int| 0 <= q2 < 4 && q2 != p ==> self.avail(q2) == s0.avail(q2),
                    self.avail(p as int) == s0.avail(p as int) & !im,
                    im == tp.id_mask,
                    forall|cx: int, cy: int|
                        0 <= cx < 20 && 0 <= cy < 20 ==> (#[trigger] log_bit(
                            self.occ(p as int),
                            cx,
                            cy,
                        ) == (log_bit(s0.occ(p as int), cx, cy) || nb_cover(
                            tp,
                            x as int,
                            y as int,
                            cx,
                            cy,
                        ))),
                    forall|cx: int, cy: int|
                        0 <= cx < 20 && 0 <= cy < 20 ==> (#[trigger] log_bit(
                            self.cor(p as int),
                            cx,
                            cy,
                        ) == ((log_bit(s0.cor(p as int), cx, cy) || crn_cover(
                            tp,
                            x as int,
                            y as int,
                            cx,
                            cy,
                        )) && !(box_cover(x as int, y as int, cx, cy, 6) && log_bit(
                            self.occ(p as int),
                            cx,
                            cy,
                        )))),
                    forall|q2: int, cx: int, cy: int|
                        0 <= q2 < q && q2 != p && 0 <= cx < 20 && 0 <= cy < 20 ==> (
                        #[trigger] log_bit(self.occ(q2), cx, cy) == (log_bit(s0.occ(q2), cx, cy)
                            || occ_cover(tp, x as int, y as int, cx, cy))),
                    forall|q2: int, cx: int, cy: int|
                        0 <= q2 < q && q2 != p && 0 <= cx < 20 && 0 <= cy < 20 ==> (
                        #[trigger] log_bit(self.cor(q2), cx, cy) == (log_bit(s0.cor(q2), cx, cy)
                            && !occ_cover(tp, x as int, y as int, cx, cy))),
                    forall|q2: int|
                        q <= q2 < 4 && q2 != p ==> self.occ(q2) == s0.occ(q2) && self.cor(q2)
                            == s0.cor(q2),
                decreases 4 - q,
            {
                if q != p {
                    let mut yy: i32 = 0;
                    while yy < 4
                        invariant
                            0 <= yy <= 4,
                            q < 4,
                            q != p,
                            p == player.spec_id(),
                            p < 4,
                            self.wf(),
                            self.cat() == s0.cat(),
                            tp == s0.cat()[pid as int],
                            pid < 89,
                            x == mv.pos.0 as i32,
                            y == mv.pos.1 as i32,
                            pat == tp.as_u16,
                            forall|q2: int|
                                0 <= q2 < 4 && q2 != p ==> self.avail(q2) == s0.avail(q2),
                            self.avail(p as int) == s0.avail(p as int) & !im,
                            im == tp.id_mask,
                            forall|cx: int, cy: int|
                                0 <= cx < 20 && 0 <= cy < 20 ==> (#[trigger] log_bit(
                                    self.occ(p as int),
                                    cx,
                                    cy,
                                ) == (log_bit(s0.occ(p as int), cx, cy) || nb_cover(
                                    tp,
                                    x as int,
                                    y as int,
                                    cx,
                                    cy,
                                ))),
                            forall|cx: int, cy: int|
                                0 <= cx < 20 && 0 <= cy < 20 ==> (#[trigger] log_bit(
                                    self.cor(p as int),
                                    cx,
                                    cy,
                                ) == ((log_bit(s0.cor(p as int), cx, cy) || crn_cover(
                                    tp,
                                    x as int,
                                    y as int,
                                    cx,
                                    cy,
                                )) && !(box_cover(x as int, y as int, cx, cy, 6) && log_bit(
                                    self.occ(p as int),
                                    cx,
                                    cy,
                                )))),
                            forall|q2: int, cx: int, cy: int|
                                0 <= q2 < q && q2 != p && 0 <= cx < 20 && 0 <= cy < 20 ==> (
                                #[trigger] log_bit(self.occ(q2), cx, cy) == (log_bit(
                                    s0.occ(q2),
                                    cx,
                                    cy,
                                ) || occ_cover(tp, x as int, y as int, cx, cy))),
                            forall|q2: int, cx: int, cy: int|
                                0 <= q2 < q && q2 != p && 0 <= cx < 20 && 0 <= cy < 20 ==> (
                                #[trigger] log_bit(self.cor(q2), cx, cy) == (log_bit(
                                    s0.cor(q2),
                                    cx,
                                    cy,
                                ) && !occ_cover(tp, x as int, y as int, cx, cy))),
                            forall|q2: int|
                                q < q2 < 4 && q2 != p ==> self.occ(q2) == s0.occ(q2) && self.cor(
                                    q2,
                                ) == s0.cor(q2),
                            forall|cx: int, cy: int|
                                0 <= cx < 20 && 0 <= cy < 20 ==> (#[trigger] log_bit(
                                    self.occ(q as int),
                                    cx,
                                    cy,
                                ) == (log_bit(s0.occ(q as int), cx, cy) || (occ_cover(
                                    tp,
                                    x as int,
                                    y as int,
                                    cx,
                                    cy,
                                ) && cy - y < yy))),
                            forall|cx: int, cy: int|
                                0 <= cx < 20 && 0 <= cy < 20 ==> (#[trigger] log_bit(
                                    self.cor(q as int),
                                    cx,
                                    cy,
                                ) == (log_bit(s0.cor(q as int), cx, cy) && !(occ_cover(
                                    tp,
                                    x as int,
                                    y as int,
                                    cx,
                                    cy,
                                ) && cy - y < yy))),
                        decreases 4 - yy,
                    {
                        let mut xx: i32 = 0;
                        while xx < 4
                            invariant
                                0 <= xx <= 4,
                                0 <= yy < 4,
                                q < 4,
                                q != p,
                                p == player.spec_id(),
                                p < 4,
                                self.wf(),
                                self.cat() == s0.cat(),
                                tp == s0.cat()[pid as int],
                                pid < 89,
                                x == mv.pos.0 as i32,
                                y == mv.pos.1 as i32,
                                pat == tp.as_u16,
                                forall|q2: int|
                                    0 <= q2 < 4 && q2 != p ==> self.avail(q2) == s0.avail(q2),
                                self.avail(p as int) == s0.avail(p as int) & !im,
                                im == tp.id_mask,
                                forall|cx: int, cy: int|
                                    0 <= cx < 20 && 0 <= cy < 20 ==> (#[trigger] log_bit(
                                        self.occ(p as int),
                                        cx,
                                        cy,
                                    ) == (log_bit(s0.occ(p as int), cx, cy) || nb_cover(
                                        tp,
                                        x as int,
                                        y as int,
                                        cx,
                                        cy,
                                    ))),
                                forall|cx: int, cy: int|
                                    0 <= cx < 20 && 0 <= cy < 20 ==> (#[trigger] log_bit(
                                        self.cor(p as int),
                                        cx,
                                        cy,
                                    ) == ((log_bit(s0.cor(p as int), cx, cy) || crn_cover(
                                        tp,
                                        x as int,
                                        y as int,
                                        cx,
                                        cy,
                                    )) && !(box_cover(x as int, y as int, cx, cy, 6) && log_bit(
                                        self.occ(p as int),
                                        cx,
                                        cy,
                                    )))),
                                forall|q2: int, cx: int, cy: int|
                                    0 <= q2 < q && q2 != p && 0 <= cx < 20 && 0 <= cy < 20 ==> (
                                    #[trigger] log_bit(self.occ(q2), cx, cy) == (log_bit(
                                        s0.occ(q2),
                                        cx,
                                        cy,
                                    ) || occ_cover(tp, x as int, y as int, cx, cy))),
                                forall|q2: int, cx: int, cy: int|
                                    0 <= q2 < q && q2 != p && 0 <= cx < 20 && 0 <= cy < 20 ==> (
                                    #[trigger] log_bit(self.cor(q2), cx, cy) == (log_bit(
                                        s0.cor(q2),
                                        cx,
                                        cy,
                                    ) && !occ_cover(tp, x as int, y as int, cx, cy))),
                                forall|q2: int|
                                    q < q2 < 4 && q2 != p ==> self.occ(q2) == s0.occ(q2)
                                        && self.cor(q2) == s0.cor(q2),
                                forall|cx: int, cy: int|
                                    0 <= cx < 20 && 0 <= cy < 20 ==> (#[trigger] log_bit(
                                        self.occ(q as int),
                                        cx,
                                        cy,
                                    ) == (log_bit(s0.occ(q as int), cx, cy) || (occ_cover(
                                        tp,
                                        x as int,
                                        y as int,
                                        cx,
                                        cy,
                                    ) && (cy - y < yy || (cy - y == yy && cx - x < xx))))),
                                forall|cx: int, cy: int|
                                    0 <= cx < 20 && 0 <= cy < 20 ==> (#[trigger] log_bit(
                                        self.cor(q as int),
                                        cx,
                                        cy,
                                    ) == (log_bit(s0.cor(q as int), cx, cy) && !(occ_cover(
                                        tp,
                                        x as int,
                                        y as int,
                                        cx,
                                        cy,
                                    ) && (cy - y < yy || (cy - y == yy && cx - x < xx))))),
                            decreases 4 - xx,
                        {
                            let tx = x + xx;
                            let ty = y + yy;
                            if 0 <= tx && tx < 20 && 0 <= ty && ty < 20 {
                                if (pat >> ((4 * yy + xx) as u16)) & 1 == 1 {
                                    self.set_bit_p(q, false, tx as usize, ty as usize);
                                    self.clear_cor_bit_p(q, tx as usize, ty as usize);
                                }
                            }
                            proof {
                                let cxi = x as int + xx;
                                let cyi = y as int + yy;
                                if 0 <= cxi < 20 && 0 <= cyi < 20 {
                                    if bit16(tp.as_u16, 4 * (yy as int) + (xx as int)) {
                                        assert(occ_cover(tp, x as int, y as int, cxi, cyi));
                                    } else {
                                        assert(!occ_cover(tp, x as int, y as int, cxi, cyi));
                                    }
                                }
                            }
                            xx += 1;
                        }
                        yy += 1;
                    }
                }
                q += 1;
            }
            proof {
                place_bridge_regular(&s0, self, player, mv, tp, p as int);
            }
        } else {
            let w5 = pid == 89;
            proof {
                lemma_catalog_bits(89);
            }
            let v = self.player_pieces[p] & !(1u128 << 89u32);
            self.player_pieces.set(p, v);
            proof {
                assert(self.avail(p as int) == s0.avail(p as int) & !(1u128 << 89));
            }
            // First pass over the placing player's own grids: OR the
            // straight piece's neighbor and corner patterns in.
            let mut b: i32 = 0;
            while b < 7
                invariant
                    0 <= b <= 7,
                    p == player.spec_id(),
                    p < 4,
                    self.wf(),
                    self.cat() == s0.cat(),
                    pid >= 89,
                    w5 == (pid == 89),
                    x == mv.pos.0 as i32,
                    y == mv.pos.1 as i32,
                    forall|q: int| 0 <= q < 4 && q != p ==> self.avail(q) == s0.avail(q),
                    self.avail(p as int) == s0.avail(p as int) & !(1u128 << 89),
                    forall|q: int|
                        0 <= q < 4 && q != p ==> self.occ(q) == s0.occ(q) && self.cor(q) == s0.cor(
                            q,
                        ),
                    forall|cx: int, cy: int|
                        0 <= cx < 20 && 0 <= cy < 20 ==> (#[trigger] log_bit(
                            self.occ(p as int),
                            cx,
                            cy,
                        ) == (log_bit(s0.occ(p as int), cx, cy) || (s5_nb(
                            w5,
                            cx - x,
                            cy - y,
                        ) && cy - y + 1 < b))),
                    forall|cx: int, cy: int|
                        0 <= cx < 20 && 0 <= cy < 20 ==> (#[trigger] log_bit(
                            self.cor(p as int),
                            cx,
                            cy,
                        ) == (log_bit(s0.cor(p as int), cx, cy) || (s5_crn(
                            w5,
                            cx - x,
                            cy - y,
                        ) && cy - y + 1 < b))),
                decreases 7 - b,
            {
                let mut a: i32 = 0;
                while a < 7
                    invariant
                        0 <= a <= 7,
                        0 <= b < 7,
                        p == player.spec_id(),
                        p < 4,
                        self.wf(),
                        self.cat() == s0.cat(),
                        pid >= 89,
                        w5 == (pid == 89),
                        x == mv.pos.0 as i32,
                        y == mv.pos.1 as i32,
                        forall|q: int| 0 <= q < 4 && q != p ==> self.avail(q) == s0.avail(q),
                        self.avail(p as int) == s0.avail(p as int) & !(1u128 << 89),
                        forall|q: int|
                            0 <= q < 4 && q != p ==> self.occ(q) == s0.occ(q) && self.cor(q)
                                == s0.cor(q),
                        forall|cx: int, cy: int|
                            0 <= cx < 20 && 0 <= cy < 20 ==> (#[trigger] log_bit(
                                self.occ(p as int),
                                cx,
                                cy,
                            ) == (log_bit(s0.occ(p as int), cx, cy) || (s5_nb(w5, cx - x, cy - y)
                                && (cy - y + 1 < b || (cy - y + 1 == b && cx - x + 1 < a))))),
                        forall|cx: int, cy: int|
                            0 <= cx < 20 && 0 <= cy < 20 ==> (#[trigger] log_bit(
                                self.cor(p as int),
                                cx,
                                cy,
                            ) == (log_bit(s0.cor(p as int), cx, cy) || (s5_crn(w5, cx - x, cy - y)
                                && (cy - y + 1 < b || (cy - y + 1 == b && cx - x + 1 < a))))),
                    decreases 7 - a,
                {
                    let tx = x + a - 1;
                    let ty = y + b - 1;
                    if 0 <= tx && tx < 20 && 0 <= ty && ty < 20 {
                        if s5_nb_exec(w5, a - 1, b - 1) {
                            self.set_bit_p(p, false, tx as usize, ty as usize);
                        }
                        if s5_crn_exec(w5, a - 1, b - 1) {
                            self.set_bit_p(p, true, tx as usize, ty as usize);
                        }
                    }
                    proof {
                        let cxi = x as int + a - 1;
                        let cyi = y as int + b - 1;
                        if 0 <= cxi < 20 && 0 <= cyi < 20 {
                            assert(s5_nb(w5, cxi - x, cyi - y) == s5_nb(w5, a - 1, b - 1));
                            assert(s5_crn(w5, cxi - x, cyi - y) == s5_crn(w5, a - 1, b - 1));
                        }
                    }
                    a += 1;
                }
                b += 1;
            }
            // Second pass: excluded cells of the influence box stop
            // being corner candidates.
            let mut b: i32 = 0;
            while b < 7
                invariant
                    0 <= b <= 7,
                    p == player.spec_id(),
                    p < 4,
                    self.wf(),
                    self.cat() == s0.cat(),
                    pid >= 89,
                    w5 == (pid == 89),
                    x == mv.pos.0 as i32,
                    y == mv.pos.1 as i32,
                    forall|q: int| 0 <= q < 4 && q != p ==> self.avail(q) == s0.avail(q),
                    self.avail(p as int) == s0.avail(p as int) & !(1u128 << 89),
                    forall|q: int|
                        0 <= q < 4 && q != p ==> self.occ(q) == s0.occ(q) && self.cor(q) == s0.cor(
                            q,
                        ),
                    forall|cx: int, cy: int|
                        0 <= cx < 20 && 0 <= cy < 20 ==> (#[trigger] log_bit(
                            self.occ(p as int),
                            cx,
                            cy,
                        ) == (log_bit(s0.occ(p as int), cx, cy) || s5_nb(w5, cx - x, cy - y))),
                    forall|cx: int, cy: int|
                        0 <= cx < 20 && 0 <= cy < 20 ==> (#[trigger] log_bit(
                            self.cor(p as int),
                            cx,
                            cy,
                        ) == ((log_bit(s0.cor(p as int), cx, cy) || s5_crn(w5, cx - x, cy - y)) && !(
                        box_cover(x as int, y as int, cx, cy, 7) && cy - y + 1 < b && log_bit(
                            self.occ(p as int),
                            cx,
                            cy,
                        )))),
                decreases 7 - b,
            {
                let mut a: i32 = 0;
                while a < 7
                    invariant
                        0 <= a <= 7,
                        0 <= b < 7,
                        p == player.spec_id(),
                        p < 4,
                        self.wf(),
                        self.cat() == s0.cat(),
                        pid >= 89,
                        w5 == (pid == 89),
                        x == mv.pos.0 as i32,
                        y == mv.pos.1 as i32,
                        forall|q: int| 0 <= q < 4 && q != p ==> self.avail(q) == s0.avail(q),
                        self.avail(p as int) == s0.avail(p as int) & !(1u128 << 89),
                        forall|q: int|
                            0 <= q < 4 && q != p ==> self.occ(q) == s0.occ(q) && self.cor(q)
                                == s0.cor(q),
                        forall|cx: int, cy: int|
                            0 <= cx < 20 && 0 <= cy < 20 ==> (#[trigger] log_bit(
                                self.occ(p as int),
                                cx,
                                cy,
                            ) == (log_bit(s0.occ(p as int), cx, cy) || s5_nb(w5, cx - x, cy - y))),
                        forall|cx: int, cy: int|
                            0 <= cx < 20 && 0 <= cy < 20 ==> (#[trigger] log_bit(
                                self.cor(p as int),
                                cx,
                                cy,
                            ) == ((log_bit(s0.cor(p as int), cx, cy) || s5_crn(w5, cx - x, cy - y))
                                && !(box_cover(x as int, y as int, cx, cy, 7) && (cy - y + 1 < b || (
                            cy - y + 1 == b && cx - x + 1 < a)) && log_bit(
                                self.occ(p as int),
                                cx,
                                cy,
                            )))),
                    decreases 7 - a,
                {
                    let tx = x + a - 1;
                    let ty = y + b - 1;
                    if 0 <= tx && tx < 20 && 0 <= ty && ty < 20 {
                        let occupied = match self.subsquares(p).get_occupied(
                            tx as usize,
                            ty as usize,
                        ) {
                            Some(v) => v,
                            None => false,
                        };
                        if occupied {
                            self.clear_cor_bit_p(p, tx as usize, ty as usize);
                        }
                    }
                    a += 1;
                }
                b += 1;
            }
            // Every other player's exclusion grid takes the five
            // cells of the piece, and loses those corner candidates.
            let mut q: usize = 0;
            while q < 4
                invariant
                    q <= 4,
                    p == player.spec_id(),
                    p < 4,
                    self.wf(),
                    self.cat() == s0.cat(),
                    pid >= 89,
                    w5 == (pid == 89),
                    x == mv.pos.0 as i32,
                    y == mv.pos.1 as i32,
                    forall|q2: int| 0 <= q2 < 4 && q2 != p ==> self.avail(q2) == s0.avail(q2),
                    self.avail(p as int) == s0.avail(p as int) & !(1u128 << 89),
                    forall|cx: int, cy: int|
                        0 <= cx < 20 && 0 <= cy < 20 ==> (#[trigger] log_bit(
                            self.occ(p as int),
                            cx,
                            cy,
                        ) == (log_bit(s0.occ(p as int), cx, cy) || s5_nb(w5, cx - x, cy - y))),
                    forall|cx: int, cy: int|
                        0 <= cx < 20 && 0 <= cy < 20 ==> (#[trigger] log_bit(
                            self.cor(p as int),
                            cx,
                            cy,
                        ) == ((log_bit(s0.cor(p as int), cx, cy) || s5_crn(w5, cx - x, cy - y)) && !(
                        box_cover(x as int, y as int, cx, cy, 7) && log_bit(
                            self.occ(p as int),
                            cx,
                            cy,
                        )))),
                    forall|q2: int, cx: int, cy: int|
                        0 <= q2 < q && q2 != p && 0 <= cx < 20 && 0 <= cy < 20 ==> (
                        #[trigger] log_bit(self.occ(q2), cx, cy) == (log_bit(s0.occ(q2), cx, cy)
                            || s5_cell(w5, cx - x, cy - y))),
                    forall|q2: int, cx: int, cy: int|
                        0 <= q2 < q && q2 != p && 0 <= cx < 20 && 0 <= cy < 20 ==> (
                        #[trigger] log_bit(self.cor(q2), cx, cy) == (log_bit(s0.cor(q2), cx, cy)
                            && !s5_cell(w5, cx - x, cy - y))),
                    forall|q2: int|
                        q <= q2 < 4 && q2 != p ==> self.occ(q2) == s0.occ(q2) && self.cor(q2)
                            == s0.cor(q2),
                decreases 4 - q,
            {
                if q != p {
                    let mut k: i32 = 0;
                    while k < 5
                        invariant
                            0 <= k <= 5,
                            q < 4,
                            q != p,
                            p == player.spec_id(),
                            p < 4,
                            self.wf(),
                            self.cat() == s0.cat(),
                            pid >= 89,
                            w5 == (pid == 89),
                            x == mv.pos.0 as i32,
                            y == mv.pos.1 as i32,
                            forall|q2: int|
                                0 <= q2 < 4 && q2 != p ==> self.avail(q2) == s0.avail(q2),
                            self.avail(p as int) == s0.avail(p as int) & !(1u128 << 89),
                            forall|cx: int, cy: int|
                                0 <= cx < 20 && 0 <= cy < 20 ==> (#[trigger] log_bit(
                                    self.occ(p as int),
                                    cx,
                                    cy,
                                ) == (log_bit(s0.occ(p as int), cx, cy) || s5_nb(
                                    w5,
                                    cx - x,
                                    cy - y,
                                ))),
                            forall|cx: int, cy: int|
                                0 <= cx < 20 && 0 <= cy < 20 ==> (#[trigger] log_bit(
                                    self.cor(p as int),
                                    cx,
                                    cy,
                                ) == ((log_bit(s0.cor(p as int), cx, cy) || s5_crn(
                                    w5,
                                    cx - x,
                                    cy - y,
                                )) && !(box_cover(x as int, y as int, cx, cy, 7) && log_bit(
                                    self.occ(p as int),
                                    cx,
                                    cy,
                                )))),
                            forall|q2: int, cx: int, cy: int|
                                0 <= q2 < q && q2 != p && 0 <= cx < 20 && 0 <= cy < 20 ==> (
                                #[trigger] log_bit(self.occ(q2), cx, cy) == (log_bit(
                                    s0.occ(q2),
                                    cx,
                                    cy,
                                ) || s5_cell(w5, cx - x, cy - y))),
                            forall|q2: int, cx: int, cy: int|
                                0 <= q2 < q && q2 != p && 0 <= cx < 20 && 0 <= cy < 20 ==> (
                                #[trigger] log_bit(self.cor(q2), cx, cy) == (log_bit(
                                    s0.cor(q2),
                                    cx,
                                    cy,
                                ) && !s5_cell(w5, cx - x, cy - y))),
                            forall|q2: int|
                                q < q2 < 4 && q2 != p ==> self.occ(q2) == s0.occ(q2) && self.cor(
                                    q2,
                                ) == s0.cor(q2),
                            forall|cx: int, cy: int|
                                0 <= cx < 20 && 0 <= cy < 20 ==> (#[trigger] log_bit(
                                    self.occ(q as int),
                                    cx,
                                    cy,
                                ) == (log_bit(s0.occ(q as int), cx, cy) || (s5_cell(
                                    w5,
                                    cx - x,
                                    cy - y,
                                ) && (if w5 {
                                    cx - x < k
                                } else {
                                    cy - y < k
                                })))),
                            forall|cx: int, cy: int|
                                0 <= cx < 20 && 0 <= cy < 20 ==> (#[trigger] log_bit(
                                    self.cor(q as int),
                                    cx,
                                    cy,
                                ) == (log_bit(s0.cor(q as int), cx, cy) && !(s5_cell(
                                    w5,
                                    cx - x,
                                    cy - y,
                                ) && (if w5 {
                                    cx - x < k
                                } else {
                                    cy - y < k
                                })))),
                        decreases 5 - k,
                    {
                        let tx = if w5 {
                            x + k
                        } else {
                            x
                        };
                        let ty = if w5 {
                            y
                        } else {
                            y + k
                        };
                        if 0 <= tx && tx < 20 && 0 <= ty && ty < 20 {
                            self.set_bit_p(q, false, tx as usize, ty as usize);
                            self.clear_cor_bit_p(q, tx as usize, ty as usize);
                        }
                        k += 1;
                    }
                }
                q += 1;
            }
            proof {
                place_bridge_straight(&s0, self, player, mv, p as int, w5);
            }
        }
    }
}

/// Whether board cell `(cx, cy)` lies in the `n` by `n` influence box
/// of a placement anchored at `(x, y)`.
pub open spec fn box_cover(x: int, y: int, cx: int, cy: int, n: int) -> bool {
    0 <= cx - x + 1 < n && 0 <= cy - y + 1 < n
}

/// Bridge the loop summaries of a regular placement to the contract of
/// `place_piece`, including preservation of the corner invariant.
proof fn place_bridge_regular(s0: &State, s1: &State, player: &Player, mv: &Move, tp: Piece, p: int)
    requires
        p == player.spec_id(),
        0 <= p < 4,
        mv.piece < 89,
        tp == s0.cat()[mv.piece as int],
        forall|cx: int, cy: int|
            0 <= cx < 20 && 0 <= cy < 20 ==> (#[trigger] log_bit(s1.occ(p), cx, cy) == (log_bit(
                s0.occ(p),
                cx,
                cy,
            ) || nb_cover(tp, mv.pos.0 as int, mv.pos.1 as int, cx, cy))),
        forall|cx: int, cy: int|
            0 <= cx < 20 && 0 <= cy < 20 ==> (#[trigger] log_bit(s1.cor(p), cx, cy) == ((log_bit(
                s0.cor(p),
                cx,
                cy,
            ) || crn_cover(tp, mv.pos.0 as int, mv.pos.1 as int, cx, cy)) && !(box_cover(
                mv.pos.0 as int,
                mv.pos.1 as int,
                cx,
                cy,
                6,
            ) && log_bit(s1.occ(p), cx, cy)))),
        forall|q2: int, cx: int, cy: int|
            0 <= q2 < 4 && q2 != p && 0 <= cx < 20 && 0 <= cy < 20 ==> (#[trigger] log_bit(
                s1.occ(q2),
                cx,
                cy,
            ) == (log_bit(s0.occ(q2), cx, cy) || occ_cover(
                tp,
                mv.pos.0 as int,
                mv.pos.1 as int,
                cx,
                cy,
            ))),
        forall|q2: int, cx: int, cy: int|
            0 <= q2 < 4 && q2 != p && 0 <= cx < 20 && 0 <= cy < 20 ==> (#[trigger] log_bit(
                s1.cor(q2),
                cx,
                cy,
            ) == (log_bit(s0.cor(q2), cx, cy) && !occ_cover(
                tp,
                mv.pos.0 as int,
                mv.pos.1 as int,
                cx,
                cy,
            ))),
    ensures
        forall|cx: int, cy: int|
            0 <= cx < 20 && 0 <= cy < 20 ==> (#[trigger] log_bit(s1.cor(p), cx, cy) == ((log_bit(
                s0.cor(p),
                cx,
                cy,
            ) || crn_cover(tp, mv.pos.0 as int, mv.pos.1 as int, cx, cy)) && !(box_cover(
                mv.pos.0 as int,
                mv.pos.1 as int,
                cx,
                cy,
                6,
            ) && (log_bit(s0.occ(p), cx, cy) || nb_cover(
                tp,
                mv.pos.0 as int,
                mv.pos.1 as int,
                cx,
                cy,
            ))))),
        forall|q: int|
            #![trigger s1.cor(q)]
            0 <= q < 4 && (forall|cx: int, cy: int|
                0 <= cx < 20 && 0 <= cy < 20 ==> (#[trigger] log_bit(s0.cor(q), cx, cy)
                    ==> !log_bit(s0.occ(q), cx, cy))) ==> (forall|cx: int, cy: int|
                0 <= cx < 20 && 0 <= cy < 20 ==> (#[trigger] log_bit(s1.cor(q), cx, cy)
                    ==> !log_bit(s1.occ(q), cx, cy))),
{
    let x = mv.pos.0 as int;
    let y = mv.pos.1 as int;
    assert forall|q: int|
        #![trigger s1.cor(q)]
        0 <= q < 4 && (forall|cx: int, cy: int|
            0 <= cx < 20 && 0 <= cy < 20 ==> (#[trigger] log_bit(s0.cor(q), cx, cy) ==> !log_bit(
                s0.occ(q),
                cx,
                cy,
            ))) implies (forall|cx: int, cy: int|
        0 <= cx < 20 && 0 <= cy < 20 ==> (#[trigger] log_bit(s1.cor(q), cx, cy) ==> !log_bit(
            s1.occ(q),
            cx,
            cy,
        ))) by {
        assert forall|cx: int, cy: int|
            0 <= cx < 20 && 0 <= cy < 20 && #[trigger] log_bit(s1.cor(q), cx, cy) implies !log_bit(
            s1.occ(q),
            cx,
            cy,
        ) by {
            if q == p {
                if log_bit(s1.occ(p), cx, cy) {
                    assert(!box_cover(x, y, cx, cy, 6));
                    assert(!nb_cover(tp, x, y, cx, cy));
                    assert(!crn_cover(tp, x, y, cx, cy));
                    assert(log_bit(s0.cor(p), cx, cy));
                    assert(!log_bit(s0.occ(p), cx, cy));
                }
            } else {
                assert(log_bit(s0.cor(q), cx, cy));
                assert(!log_bit(s0.occ(q), cx, cy));
                assert(!occ_cover(tp, x, y, cx, cy));
            }
        }
    }
}

/// Bridge the loop summaries of a 5-long straight placement to the
/// contract of `place_piece`, including preservation of the corner
/// invariant.
proof fn place_bridge_straight(s0: &State, s1: &State, player: &Player, mv: &Move, p: int, w5: bool)
    requires
        p == player.spec_id(),
        0 <= p < 4,
        mv.piece >= 89,
        w5 == (mv.piece == 89),
        forall|cx: int, cy: int|
            0 <= cx < 20 && 0 <= cy < 20 ==> (#[trigger] log_bit(s1.occ(p), cx, cy) == (log_bit(
                s0.occ(p),
                cx,
                cy,
            ) || s5_nb(w5, cx - mv.pos.0 as int, cy - mv.pos.1 as int))),
        forall|cx: int, cy: int|
            0 <= cx < 20 && 0 <= cy < 20 ==> (#[trigger] log_bit(s1.cor(p), cx, cy) == ((log_bit(
                s0.cor(p),
                cx,
                cy,
            ) || s5_crn(w5, cx - mv.pos.0 as int, cy - mv.pos.1 as int)) && !(box_cover(
                mv.pos.0 as int,
                mv.pos.1 as int,
                cx,
                cy,
                7,
            ) && log_bit(s1.occ(p), cx, cy)))),
        forall|q2: int, cx: int, cy: int|
            0 <= q2 < 4 && q2 != p && 0 <= cx < 20 && 0 <= cy < 20 ==> (#[trigger] log_bit(
                s1.occ(q2),
                cx,
                cy,
            ) == (log_bit(s0.occ(q2), cx, cy) || s5_cell(
                w5,
                cx - mv.pos.0 as int,
                cy - mv.pos.1 as int,
            ))),
        forall|q2: int, cx: int, cy: int|
            0 <= q2 < 4 && q2 != p && 0 <= cx < 20 && 0 <= cy < 20 ==> (#[trigger] log_bit(
                s1.cor(q2),
                cx,
                cy,
            ) == (log_bit(s0.cor(q2), cx, cy) && !s5_cell(
                w5,
                cx - mv.pos.0 as int,
                cy - mv.pos.1 as int,
            ))),
    ensures
        forall|cx: int, cy: int|
            0 <= cx < 20 && 0 <= cy < 20 ==> (#[trigger] log_bit(s1.cor(p), cx, cy) == ((log_bit(
                s0.cor(p),
                cx,
                cy,
            ) || s5_crn(w5, cx - mv.pos.0 as int, cy - mv.pos.1 as int)) && !(box_cover(
                mv.pos.0 as int,
                mv.pos.1 as int,
                cx,
                cy,
                7,
            ) && (log_bit(s0.occ(p), cx, cy) || s5_nb(
                w5,
                cx - mv.pos.0 as int,
                cy - mv.pos.1 as int,
            ))))),
        forall|q: int|
            #![trigger s1.cor(q)]
            0 <= q < 4 && (forall|cx: int, cy: int|
                0 <= cx < 20 && 0 <= cy < 20 ==> (#[trigger] log_bit(s0.cor(q), cx, cy)
                    ==> !log_bit(s0.occ(q), cx, cy))) ==> (forall|cx: int, cy: int|
                0 <= cx < 20 && 0 <= cy < 20 ==> (#[trigger] log_bit(s1.cor(q), cx, cy)
                    ==> !log_bit(s1.occ(q), cx, cy))),
{
    let x = mv.pos.0 as int;
    let y = mv.pos.1 as int;
    assert forall|q: int|
        #![trigger s1.cor(q)]
        0 <= q < 4 && (forall|cx: int, cy: int|
            0 <= cx < 20 && 0 <= cy < 20 ==> (#[trigger] log_bit(s0.cor(q), cx, cy) ==> !log_bit(
                s0.occ(q),
                cx,
                cy,
            ))) implies (forall|cx: int, cy: int|
        0 <= cx < 20 && 0 <= cy < 20 ==> (#[trigger] log_bit(s1.cor(q), cx, cy) ==> !log_bit(
            s1.occ(q),
            cx,
            cy,
        ))) by {
        assert forall|cx: int, cy: int|
            0 <= cx < 20 && 0 <= cy < 20 && #[trigger] log_bit(s1.cor(q), cx, cy) implies !log_bit(
            s1.occ(q),
            cx,
            cy,
        ) by {
            if q == p {
                if log_bit(s1.occ(p), cx, cy) {
                    assert(!box_cover(x, y, cx, cy, 7));
                    assert(!s5_nb(w5, cx - x, cy - y));
                    assert(!s5_crn(w5, cx - x, cy - y));
                    assert(log_bit(s0.cor(p), cx, cy));
                    assert(!log_bit(s0.occ(p), cx, cy));
                }
            } else {
                assert(log_bit(s0.cor(q), cx, cy));
                assert(!log_bit(s0.occ(q), cx, cy));
                assert(!s5_cell(w5, cx - x, cy - y));
            }
        }
    }
}

} // verus!
