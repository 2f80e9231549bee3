//! Pieces of the windowed engine.
//!
//! Every piece variant fits a 4x4 bounding box (the two 5-long straight
//! pieces are handled by the engine as extensions of 4-long matches).
//! A piece carries its occupancy packed into a `u16`, and 6-row
//! neighbor and corner patterns that the placement updater ORs into the
//! overlapping windows.

use crate::piece::{corner_dx, corner_dy};
use vstd::prelude::*;

verus! {

/// Bit `i` of a packed 16-bit window or piece pattern.
pub open spec fn bit16(u: u16, i: int) -> bool {
    (u >> (i as u16)) & 1 == 1
}

/// Bit `i` of one 8-bit pattern row.
pub open spec fn bit8(u: u8, i: int) -> bool {
    (u >> (i as u8)) & 1 == 1
}

/// Cell `(x, y)` of a piece given by its rows, confined to a `w` by
/// `h` bounding box.
pub open spec fn pcell(rows: Seq<u8>, w: int, h: int, x: int, y: int) -> bool {
    &&& 0 <= x < w
    &&& 0 <= y < h
    &&& y < rows.len()
    &&& bit8(rows[y], x)
}

/// Cell `(x, y)` of a piece packed into a `u16`, one 4-bit group per
/// row.
pub open spec fn pcell16(u: u16, w: int, h: int, x: int, y: int) -> bool {
    &&& 0 <= x < w
    &&& 0 <= y < h
    &&& x < 4
    &&& y < 4
    &&& bit16(u, 4 * y + x)
}

/// The neighbor pattern of a piece at `(a, b)` of the padded box: the
/// cell `(a - 1, b - 1)` is a piece cell or orthogonally adjacent to
/// one.
pub open spec fn nb_bit(rows: Seq<u8>, w: int, h: int, a: int, b: int) -> bool {
    ||| pcell(rows, w, h, a - 1, b - 1)
    ||| pcell(rows, w, h, a - 2, b - 1)
    ||| pcell(rows, w, h, a, b - 1)
    ||| pcell(rows, w, h, a - 1, b - 2)
    ||| pcell(rows, w, h, a - 1, b)
}

/// The corner pattern of a piece at `(a, b)` of the padded box: the
/// cell `(a - 1, b - 1)` is diagonally adjacent to a piece cell with
/// both orthogonally intermediate cells empty.
pub open spec fn crn_bit(rows: Seq<u8>, w: int, h: int, a: int, b: int) -> bool {
    exists|dd: int|
        0 <= dd < 4 && pcell(rows, w, h, a - 1 - corner_dx(dd), b - 1 - corner_dy(dd)) && !pcell(
            rows,
            w,
            h,
            a - 1,
            b - 1 - corner_dy(dd),
        ) && !pcell(rows, w, h, a - 1 - corner_dx(dd), b - 1)
}

/// OR-ing one bit into a pattern row sets that bit, leaves the others,
/// and keeps the row confined to its six columns.
pub proof fn lemma_u8_or_bit(w: u8, s: u8, s2: u8)
    by (bit_vector)
    requires
        s < 8,
        s2 < 8,
    ensures
        ((w | (1u8 << s)) >> s) & 1 == 1,
        s2 != s ==> ((w | (1u8 << s)) >> s2) & 1 == (w >> s2) & 1,
        w >> 6 == 0 && s < 6 ==> (w | (1u8 << s)) >> 6 == 0,
{
}

/// Bits of the zero row, and bits of a row masked to its width.
pub proof fn lemma_u8_row_bits(w: u8, k: u8, s: u8)
    by (bit_vector)
    requires
        k <= 4,
        s < 8,
    ensures
        (0u8 >> s) & 1 == 0,
        0u8 >> 6 == 0,
        (w & (((1u8 << k) - 1) as u8)) < 16,
        s < k ==> ((w & (((1u8 << k) - 1) as u8)) >> s) & 1 == (w >> s) & 1,
        s >= k ==> ((w & (((1u8 << k) - 1) as u8)) >> s) & 1 == 0,
        (1u8 << k) >= 1,
{
}

/// Bits of four 4-bit rows packed into one `u16`.
pub proof fn lemma_pack_u16(p0: u8, p1: u8, p2: u8, p3: u8, x: u16, y: u16)
    by (bit_vector)
    requires
        x < 4,
        y < 4,
        p0 < 16,
        p1 < 16,
        p2 < 16,
        p3 < 16,
    ensures
        y == 0 ==> ((((p0 as u16) | ((p1 as u16) << 4) | ((p2 as u16) << 8) | ((p3 as u16) << 12))
            >> ((4 * y + x) as u16)) & 1 == 1 <==> (p0 >> (x as u8)) & 1 == 1),
        y == 1 ==> ((((p0 as u16) | ((p1 as u16) << 4) | ((p2 as u16) << 8) | ((p3 as u16) << 12))
            >> ((4 * y + x) as u16)) & 1 == 1 <==> (p1 >> (x as u8)) & 1 == 1),
        y == 2 ==> ((((p0 as u16) | ((p1 as u16) << 4) | ((p2 as u16) << 8) | ((p3 as u16) << 12))
            >> ((4 * y + x) as u16)) & 1 == 1 <==> (p2 >> (x as u8)) & 1 == 1),
        y == 3 ==> ((((p0 as u16) | ((p1 as u16) << 4) | ((p2 as u16) << 8) | ((p3 as u16) << 12))
            >> ((4 * y + x) as u16)) & 1 == 1 <==> (p3 >> (x as u8)) & 1 == 1),
{
}

/// Read one cell of a piece's masked rows.
fn pcell_exec(rows: &Vec<u8>, w: i8, h: i8, x: i32, y: i32) -> (r: bool)
    requires
        rows@.len() == 4,
        1 <= w <= 4,
        1 <= h <= 4,
    ensures
        r == pcell(rows@, w as int, h as int, x as int, y as int),
{
    if x < 0 || y < 0 || x >= w as i32 || y >= h as i32 {
        return false;
    }
    (rows[y as usize] >> (x as u8)) & 1 == 1
}

/// One row of the neighbor pattern.
fn nb_row(rows: &Vec<u8>, w: i8, h: i8, b: i32) -> (r: u8)
    requires
        rows@.len() == 4,
        1 <= w <= 4,
        1 <= h <= 4,
        0 <= b < 6,
    ensures
        forall|a: int| 0 <= a < 6 ==> (#[trigger] bit8(r, a) == nb_bit(rows@, w as int, h as int, a, b as int)),
        r >> 6 == 0,
{
    let mut row: u8 = 0;
    proof {
        lemma_u8_row_bits(0, 0, 0);
        assert forall|a: int| 0 <= a < 8 implies !bit8(0u8, a) by {
            lemma_u8_row_bits(0, 0, a as u8);
        }
    }
    let mut a: i32 = 0;
    while a < 6
        invariant
            0 <= a <= 6,
            rows@.len() == 4,
            1 <= w <= 4,
            1 <= h <= 4,
            0 <= b < 6,
            row >> 6 == 0,
            forall|a2: int|
                0 <= a2 < a ==> (#[trigger] bit8(row, a2) == nb_bit(
                    rows@,
                    w as int,
                    h as int,
                    a2,
                    b as int,
                )),
            forall|a2: int| a <= a2 < 8 ==> !(#[trigger] bit8(row, a2)),
        decreases 6 - a,
    {
        let set = pcell_exec(rows, w, h, a - 1, b - 1) || pcell_exec(rows, w, h, a - 2, b - 1)
            || pcell_exec(rows, w, h, a, b - 1) || pcell_exec(rows, w, h, a - 1, b - 2)
            || pcell_exec(rows, w, h, a - 1, b);
        if set {
            let ghost old_row = row;
            row = row | (1u8 << (a as u8));
            proof {
                assert forall|a2: int| 0 <= a2 < 8 implies #[trigger] bit8(row, a2) == (bit8(
                    old_row,
                    a2,
                ) || a2 == a as int) by {
                    lemma_u8_or_bit(old_row, a as u8, a2 as u8);
                }
                lemma_u8_or_bit(old_row, a as u8, 0);
            }
        }
        a += 1;
    }
    row
}

/// One row of the corner pattern.
fn crn_row(rows: &Vec<u8>, w: i8, h: i8, b: i32) -> (r: u8)
    requires
        rows@.len() == 4,
        1 <= w <= 4,
        1 <= h <= 4,
        0 <= b < 6,
    ensures
        forall|a: int| 0 <= a < 6 ==> (#[trigger] bit8(r, a) == crn_bit(rows@, w as int, h as int, a, b as int)),
        r >> 6 == 0,
{
    let mut row: u8 = 0;
    proof {
        lemma_u8_row_bits(0, 0, 0);
        assert forall|a: int| 0 <= a < 8 implies !bit8(0u8, a) by {
            lemma_u8_row_bits(0, 0, a as u8);
        }
    }
    let mut a: i32 = 0;
    while a < 6
        invariant
            0 <= a <= 6,
            rows@.len() == 4,
            1 <= w <= 4,
            1 <= h <= 4,
            0 <= b < 6,
            row >> 6 == 0,
            forall|a2: int|
                0 <= a2 < a ==> (#[trigger] bit8(row, a2) == crn_bit(
                    rows@,
                    w as int,
                    h as int,
                    a2,
                    b as int,
                )),
            forall|a2: int| a <= a2 < 8 ==> !(#[trigger] bit8(row, a2)),
        decreases 6 - a,
    {
        let t0 = pcell_exec(rows, w, h, a - 2, b - 2) && !pcell_exec(rows, w, h, a - 1, b - 2)
            && !pcell_exec(rows, w, h, a - 2, b - 1);
        let t1 = pcell_exec(rows, w, h, a, b - 2) && !pcell_exec(rows, w, h, a - 1, b - 2)
            && !pcell_exec(rows, w, h, a, b - 1);
        let t2 = pcell_exec(rows, w, h, a - 2, b) && !pcell_exec(rows, w, h, a - 1, b)
            && !pcell_exec(rows, w, h, a - 2, b - 1);
        let t3 = pcell_exec(rows, w, h, a, b) && !pcell_exec(rows, w, h, a - 1, b) && !pcell_exec(
            rows,
            w,
            h,
            a,
            b - 1,
        );
        let set = t0 || t1 || t2 || t3;
        proof {
            assert(corner_dx(0) == 1 && corner_dy(0) == 1);
            assert(corner_dx(1) == -1 && corner_dy(1) == 1);
            assert(corner_dx(2) == 1 && corner_dy(2) == -1);
            assert(corner_dx(3) == -1 && corner_dy(3) == -1);
            if set {
                if t0 {
                    assert(crn_bit(rows@, w as int, h as int, a as int, b as int)) by {
                        assert(pcell(rows@, w as int, h as int, a - 1 - corner_dx(0), b as int - 1
                            - corner_dy(0)) && !pcell(rows@, w as int, h as int, a - 1, b as int - 1
                            - corner_dy(0)) && !pcell(rows@, w as int, h as int, a - 1 - corner_dx(0),
                        b as int - 1));
                    }
                } else if t1 {
                    assert(crn_bit(rows@, w as int, h as int, a as int, b as int)) by {
                        assert(pcell(rows@, w as int, h as int, a - 1 - corner_dx(1), b as int - 1
                            - corner_dy(1)) && !pcell(rows@, w as int, h as int, a - 1, b as int - 1
                            - corner_dy(1)) && !pcell(rows@, w as int, h as int, a - 1 - corner_dx(1),
                        b as int - 1));
                    }
                } else if t2 {
                    assert(crn_bit(rows@, w as int, h as int, a as int, b as int)) by {
                        assert(pcell(rows@, w as int, h as int, a - 1 - corner_dx(2), b as int - 1
                            - corner_dy(2)) && !pcell(rows@, w as int, h as int, a - 1, b as int - 1
                            - corner_dy(2)) && !pcell(rows@, w as int, h as int, a - 1 - corner_dx(2),
                        b as int - 1));
                    }
                } else {
                    assert(crn_bit(rows@, w as int, h as int, a as int, b as int)) by {
                        assert(pcell(rows@, w as int, h as int, a - 1 - corner_dx(3), b as int - 1
                            - corner_dy(3)) && !pcell(rows@, w as int, h as int, a - 1, b as int - 1
                            - corner_dy(3)) && !pcell(rows@, w as int, h as int, a - 1 - corner_dx(3),
                        b as int - 1));
                    }
                }
            } else {
                if crn_bit(rows@, w as int, h as int, a as int, b as int) {
                    let dd = choose|dd: int|
                        0 <= dd < 4 && pcell(rows@, w as int, h as int, a - 1 - corner_dx(dd),
                        b as int - 1 - corner_dy(dd)) && !pcell(rows@, w as int, h as int, a - 1,
                        b as int - 1 - corner_dy(dd)) && !pcell(rows@, w as int, h as int, a - 1
                            - corner_dx(dd), b as int - 1);
                    assert(false);
                }
            }
        }
        if set {
            let ghost old_row = row;
            row = row | (1u8 << (a as u8));
            proof {
                assert forall|a2: int| 0 <= a2 < 8 implies #[trigger] bit8(row, a2) == (bit8(
                    old_row,
                    a2,
                ) || a2 == a as int) by {
                    lemma_u8_or_bit(old_row, a as u8, a2 as u8);
                }
                lemma_u8_or_bit(old_row, a as u8, 0);
            }
        }
        a += 1;
    }
    row
}

/// A piece of the windowed engine, with every pattern the engine
/// matches or writes.
pub struct Piece {
    /// Width of the piece.
    pub width: i8,
    /// Height of the piece.
    pub height: i8,
    /// ID mask of the piece: one bit for the piece and each of its
    /// transformations, used to remove the base piece from a player's
    /// hand.
    pub id_mask: u128,
    /// The occupancy pattern packed as one 4x4 window, row by row.
    pub as_u16: u16,
    /// The piece padded by its orthogonal exclusion halo, one row per
    /// entry, offset by one cell.
    pub neighbor_mask: [u8; 6],
    /// The valid diagonal anchor cells of the piece, one row per
    /// entry, offset by one cell.
    pub corner_mask: [u8; 6],
}

impl Piece {
    /// The patterns agree with the occupancy packed in `as_u16`.
    pub open spec fn wf(self) -> bool {
        &&& 1 <= self.width <= 4
        &&& 1 <= self.height <= 4
        &&& forall|x: int, y: int|
            0 <= x < 4 && 0 <= y < 4 ==> (#[trigger] bit16(self.as_u16, 4 * y + x) ==> x
                < self.width && y < self.height)
        &&& forall|a: int, b: int|
            0 <= a < 6 && 0 <= b < 6 ==> (#[trigger] bit8(self.neighbor_mask@[b], a) == nb_bit16(
                self.as_u16,
                self.width as int,
                self.height as int,
                a,
                b,
            ))
        &&& forall|a: int, b: int|
            0 <= a < 6 && 0 <= b < 6 ==> (#[trigger] bit8(self.corner_mask@[b], a) == crn_bit16(
                self.as_u16,
                self.width as int,
                self.height as int,
                a,
                b,
            ))
        &&& forall|b: int| 0 <= b < 6 ==> (#[trigger] self.neighbor_mask@[b]) >> 6 == 0
        &&& forall|b: int| 0 <= b < 6 ==> (#[trigger] self.corner_mask@[b]) >> 6 == 0
    }

    /// Build a piece from its bounding box and occupancy rows; bits
    /// outside the bounding box are ignored.
    pub fn new(width: i8, height: i8, id_mask: u128, piece: [u8; 4]) -> (r: Piece)
        requires
            1 <= width <= 4,
            1 <= height <= 4,
        ensures
            r.wf(),
            r.width == width,
            r.height == height,
            r.id_mask == id_mask,
            forall|x: int, y: int|
                0 <= x < 4 && 0 <= y < 4 ==> (#[trigger] bit16(r.as_u16, 4 * y + x) == pcell(
                    piece@,
                    width as int,
                    height as int,
                    x,
                    y,
                )),
    {
        proof {
            lemma_u8_row_bits(0, width as u8, 0);
        }
        let m: u8 = (1u8 << (width as u8)) - 1;
        let mut rows: Vec<u8> = Vec::new();
        rows.push(if height > 0 { piece[0] & m } else { 0 });
        rows.push(if height > 1 { piece[1] & m } else { 0 });
        rows.push(if height > 2 { piece[2] & m } else { 0 });
        rows.push(if height > 3 { piece[3] & m } else { 0 });
        proof {
            assert forall|x: int, y: int| 0 <= x < 4 && 0 <= y < 4 implies #[trigger] pcell(
                rows@,
                width as int,
                height as int,
                x,
                y,
            ) == pcell(piece@, width as int, height as int, x, y) by {
                if y < height {
                    lemma_u8_row_bits(piece@[y], width as u8, x as u8);
                }
            }
            assert forall|j: int| 0 <= j < 4 implies (#[trigger] rows@[j]) < 16 by {
                if j < height {
                    lemma_u8_row_bits(piece@[j], width as u8, 0);
                }
            }
        }
        let as_u16: u16 = (rows[0] as u16) | ((rows[1] as u16) << 4) | ((rows[2] as u16) << 8) | (
        (rows[3] as u16) << 12);
        proof {
            assert forall|x: int, y: int| 0 <= x < 4 && 0 <= y < 4 implies #[trigger] bit16(
                as_u16,
                4 * y + x,
            ) == pcell(rows@, width as int, height as int, x, y) by {
                lemma_pack_u16(rows@[0], rows@[1], rows@[2], rows@[3], x as u16, y as u16);
                if y >= height || x >= width {
                    if y < height {
                        lemma_u8_row_bits(piece@[y], width as u8, x as u8);
                        assert(rows@[y] == piece@[y] & (((1u8 << (width as u8)) - 1) as u8));
                        assert(!bit8(rows@[y], x));
                    } else {
                        lemma_u8_row_bits(0, width as u8, x as u8);
                        assert(rows@[y] == 0);
                        assert(!bit8(rows@[y], x));
                    }
                }
            }
        }
        let n0 = nb_row(&rows, width, height, 0);
        let n1 = nb_row(&rows, width, height, 1);
        let n2 = nb_row(&rows, width, height, 2);
        let n3 = nb_row(&rows, width, height, 3);
        let n4 = nb_row(&rows, width, height, 4);
        let n5 = nb_row(&rows, width, height, 5);
        let c0 = crn_row(&rows, width, height, 0);
        let c1 = crn_row(&rows, width, height, 1);
        let c2 = crn_row(&rows, width, height, 2);
        let c3 = crn_row(&rows, width, height, 3);
        let c4 = crn_row(&rows, width, height, 4);
        let c5 = crn_row(&rows, width, height, 5);
        let r = Piece {
            width,
            height,
            id_mask,
            as_u16,
            neighbor_mask: [n0, n1, n2, n3, n4, n5],
            corner_mask: [c0, c1, c2, c3, c4, c5],
        };
        proof {
            assert forall|x: int, y: int|
                0 <= x < 4 && 0 <= y < 4 implies (#[trigger] pcell16(
                r.as_u16,
                width as int,
                height as int,
                x,
                y,
            ) == pcell(rows@, width as int, height as int, x, y)) by {}
            assert forall|a: int, b: int|
                0 <= a < 6 && 0 <= b < 6 implies (#[trigger] bit8(r.neighbor_mask@[b], a)
                == nb_bit16(r.as_u16, width as int, height as int, a, b)) by {
                assert(bit8(r.neighbor_mask@[b], a) == nb_bit(
                    rows@,
                    width as int,
                    height as int,
                    a,
                    b,
                ));
                lemma_nb16_equiv(r.as_u16, rows@, width as int, height as int, a, b);
            }
            assert forall|a: int, b: int|
                0 <= a < 6 && 0 <= b < 6 implies (#[trigger] bit8(r.corner_mask@[b], a)
                == crn_bit16(r.as_u16, width as int, height as int, a, b)) by {
                assert(bit8(r.corner_mask@[b], a) == crn_bit(
                    rows@,
                    width as int,
                    height as int,
                    a,
                    b,
                ));
                lemma_crn16_equiv(r.as_u16, rows@, width as int, height as int, a, b);
            }
        }
        r
    }
}

/// The neighbor pattern over the packed occupancy.
pub open spec fn nb_bit16(u: u16, w: int, h: int, a: int, b: int) -> bool {
    ||| pcell16(u, w, h, a - 1, b - 1)
    ||| pcell16(u, w, h, a - 2, b - 1)
    ||| pcell16(u, w, h, a, b - 1)
    ||| pcell16(u, w, h, a - 1, b - 2)
    ||| pcell16(u, w, h, a - 1, b)
}

/// The corner pattern over the packed occupancy.
pub open spec fn crn_bit16(u: u16, w: int, h: int, a: int, b: int) -> bool {
    exists|dd: int|
        0 <= dd < 4 && pcell16(u, w, h, a - 1 - corner_dx(dd), b - 1 - corner_dy(dd)) && !pcell16(
            u,
            w,
            h,
            a - 1,
            b - 1 - corner_dy(dd),
        ) && !pcell16(u, w, h, a - 1 - corner_dx(dd), b - 1)
}

/// The packed and the row forms of a piece agree cell by cell, so
/// their neighbor patterns agree.
proof fn lemma_nb16_equiv(u: u16, rows: Seq<u8>, w: int, h: int, a: int, b: int)
    requires
        forall|x: int, y: int|
            0 <= x < 4 && 0 <= y < 4 ==> (#[trigger] bit16(u, 4 * y + x) == pcell(rows, w, h, x, y)),
        1 <= w <= 4,
        1 <= h <= 4,
        rows.len() == 4,
    ensures
        nb_bit16(u, w, h, a, b) == nb_bit(rows, w, h, a, b),
{
    lemma_cell16_equiv(u, rows, w, h, a - 1, b - 1);
    lemma_cell16_equiv(u, rows, w, h, a - 2, b - 1);
    lemma_cell16_equiv(u, rows, w, h, a, b - 1);
    lemma_cell16_equiv(u, rows, w, h, a - 1, b - 2);
    lemma_cell16_equiv(u, rows, w, h, a - 1, b);
}

/// The packed and the row forms of a piece agree cell by cell, so
/// their corner patterns agree.
proof fn lemma_crn16_equiv(u: u16, rows: Seq<u8>, w: int, h: int, a: int, b: int)
    requires
        forall|x: int, y: int|
            0 <= x < 4 && 0 <= y < 4 ==> (#[trigger] bit16(u, 4 * y + x) == pcell(rows, w, h, x, y)),
        1 <= w <= 4,
        1 <= h <= 4,
        rows.len() == 4,
    ensures
        crn_bit16(u, w, h, a, b) == crn_bit(rows, w, h, a, b),
{
    assert forall|x: int, y: int| #[trigger]
        pcell16(u, w, h, x, y) == pcell(rows, w, h, x, y) by {
        lemma_cell16_equiv(u, rows, w, h, x, y);
    }
    if crn_bit16(u, w, h, a, b) {
        let dd = choose|dd: int|
            0 <= dd < 4 && pcell16(u, w, h, a - 1 - corner_dx(dd), b - 1 - corner_dy(dd))
                && !pcell16(u, w, h, a - 1, b - 1 - corner_dy(dd)) && !pcell16(u, w, h, a - 1
                - corner_dx(dd), b - 1);
        assert(pcell(rows, w, h, a - 1 - corner_dx(dd), b - 1 - corner_dy(dd)) && !pcell(rows, w,
        h, a - 1, b - 1 - corner_dy(dd)) && !pcell(rows, w, h, a - 1 - corner_dx(dd), b - 1));
    }
    if crn_bit(rows, w, h, a, b) {
        let dd = choose|dd: int|
            0 <= dd < 4 && pcell(rows, w, h, a - 1 - corner_dx(dd), b - 1 - corner_dy(dd))
                && !pcell(rows, w, h, a - 1, b - 1 - corner_dy(dd)) && !pcell(rows, w, h, a - 1
                - corner_dx(dd), b - 1);
        assert(pcell16(u, w, h, a - 1 - corner_dx(dd), b - 1 - corner_dy(dd)) && !pcell16(u, w, h,
        a - 1, b - 1 - corner_dy(dd)) && !pcell16(u, w, h, a - 1 - corner_dx(dd), b - 1));
    }
}

/// One cell of the packed form equals the same cell of the row form.
proof fn lemma_cell16_equiv(u: u16, rows: Seq<u8>, w: int, h: int, x: int, y: int)
    requires
        forall|x2: int, y2: int|
            0 <= x2 < 4 && 0 <= y2 < 4 ==> (#[trigger] bit16(u, 4 * y2 + x2) == pcell(
                rows,
                w,
                h,
                x2,
                y2,
            )),
        1 <= w <= 4,
        1 <= h <= 4,
        rows.len() == 4,
    ensures
        pcell16(u, w, h, x, y) == pcell(rows, w, h, x, y),
{
    if 0 <= x < 4 && 0 <= y < 4 {
        assert(bit16(u, 4 * y + x) == pcell(rows, w, h, x, y));
    }
}

} // verus!
