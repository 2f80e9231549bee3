//! A bitmask for the game board.
//!
//! Each cell of the board is represented by 4 bits (a nibble):
//!
//! * `0x0 = 0b0000` empty
//! * `0x1 = 0b0001` first player
//! * `0x2 = 0b0010` second player
//! * `0x4 = 0b0100` third player
//! * `0x8 = 0b1000` fourth player
//!
//! A row of the board is stored as a single `u128`, so a mask can be at
//! most 31 cells wide.  The mathematical model of a mask is its width
//! together with the sequence of its rows; the nibble of a cell is read
//! out of its row by shifting.

use crate::utils::Dimensioned;
use vstd::prelude::*;

verus! {

/// The mathematical model of a [`Mask`]: a width and the raw rows.
#[verifier::ext_equal]
pub ghost struct MaskView {
    pub w: int,
    pub rows: Seq<u128>,
}

/// The nibble (4-bit cell value) of column `x` inside a raw row.
pub open spec fn nibble_of(row: u128, x: int) -> u128 {
    (row >> ((4 * x) as u128)) & 0xF
}

/// A raw row shifted by a signed number of bits (negative shifts right).
pub open spec fn shift_spec(row: u128, s: int) -> u128 {
    if s >= 0 {
        row << (s as u128)
    } else {
        row >> ((-s) as u128)
    }
}

/// The value with the low `4 * w` bits set: every nibble of a row of
/// width `w`.
pub open spec fn low_mask(w: int) -> u128 {
    ((1u128 << ((4 * w) as u128)) - 1) as u128
}

impl MaskView {
    /// A well-formed mask view: a representable width, and every row
    /// confined to that width.
    pub open spec fn wf(self) -> bool {
        &&& 1 <= self.w <= 31
        &&& self.rows.len() <= 125
        &&& forall|j: int|
            0 <= j < self.rows.len() ==> (#[trigger] self.rows[j]) >> ((4 * self.w) as u128) == 0
    }

    /// The nibble of the cell at column `x` of row `y`.
    pub open spec fn cell(self, x: int, y: int) -> u128 {
        nibble_of(self.rows[y], x)
    }

    /// Whether `(x, y)` is a position inside this mask.
    pub open spec fn in_bounds(self, x: int, y: int) -> bool {
        0 <= x < self.w && 0 <= y < self.rows.len()
    }

    /// No row has any bit set.
    pub open spec fn is_empty(self) -> bool {
        forall|j: int| 0 <= j < self.rows.len() ==> self.rows[j] == 0
    }
}

/// First row of `a` touched when `b` is laid at vertical offset `y`.
pub open spec fn overlap_start(y: int) -> int {
    if y >= 0 {
        y
    } else {
        0
    }
}

/// Number of rows on which `a` and `b` overlap when `b` is laid at
/// vertical offset `y`.
pub open spec fn overlap_count(ah: int, bh: int, y: int) -> int {
    let c = if ah - overlap_start(y) <= bh - (overlap_start(y) - y) {
        ah - overlap_start(y)
    } else {
        bh - (overlap_start(y) - y)
    };
    if c >= 0 {
        c
    } else {
        0
    }
}

/// The mask obtained by OR-ing `b` into `a` with `b`'s top-left corner
/// at `(x, y)` of `a` (cell offsets; either may be negative).  Rows are
/// confined to `a`'s width.
pub open spec fn view_or(a: MaskView, b: MaskView, x: int, y: int) -> MaskView {
    MaskView {
        w: a.w,
        rows: Seq::new(
            a.rows.len(),
            |j: int|
                if overlap_start(y) <= j < overlap_start(y) + overlap_count(
                    a.rows.len() as int,
                    b.rows.len() as int,
                    y,
                ) {
                    (a.rows[j] | shift_spec(b.rows[j - y], 4 * x)) & low_mask(a.w)
                } else {
                    a.rows[j]
                },
        ),
    }
}

/// `a` and `b` share no set bit when `b` is laid with its top-left
/// corner at `(x, y)` of `a`.
pub open spec fn views_disjoint(a: MaskView, b: MaskView, x: int, y: int) -> bool {
    forall|j: int|
        overlap_start(y) <= j < overlap_start(y) + overlap_count(
            a.rows.len() as int,
            b.rows.len() as int,
            y,
        ) ==> (#[trigger] a.rows[j]) & shift_spec(b.rows[j - y], 4 * x) == 0
}

/// Updating one nibble of a row leaves the row's other nibbles and its
/// confinement to the width untouched.
pub proof fn lemma_nibble_update(row: u128, s: u128, s2: u128, t: u128, v: u128)
    by (bit_vector)
    requires
        s <= 124,
        s2 <= 124,
        t <= 124,
        v < 16,
    ensures
        ((row & !(0xFu128 << s) | (v << s)) >> s) & 0xF == v,
        s2 != s && s2 % 4 == 0 && s % 4 == 0 ==> ((row & !(0xFu128 << s) | (v << s)) >> s2) & 0xF
            == (row >> s2) & 0xF,
        row >> t == 0 && s + 4 <= t ==> (row & !(0xFu128 << s) | (v << s)) >> t == 0,
{
}

/// OR-ing a nibble into a row ORs that one nibble and leaves the row's
/// other nibbles and its confinement to the width untouched.
pub proof fn lemma_nibble_or(row: u128, s: u128, s2: u128, t: u128, v: u128)
    by (bit_vector)
    requires
        s <= 124,
        s2 <= 124,
        t <= 124,
        v < 16,
    ensures
        ((row | (v << s)) >> s) & 0xF == ((row >> s) & 0xF) | v,
        s2 != s && s2 % 4 == 0 && s % 4 == 0 ==> ((row | (v << s)) >> s2) & 0xF == (row >> s2)
            & 0xF,
        row >> t == 0 && s + 4 <= t ==> (row | (v << s)) >> t == 0,
{
}

/// A row AND-ed with the low mask of a width is confined to that width,
/// and a row already confined is unchanged by the AND.
pub proof fn lemma_low_mask(row: u128, t: u128)
    by (bit_vector)
    requires
        t < 125,
    ensures
        (row & (((1u128 << t) - 1) as u128)) >> t == 0,
        row >> t == 0 ==> row & (((1u128 << t) - 1) as u128) == row,
{
}

/// OR-ing nibbles yields a nibble; the OR is zero exactly when both
/// sides are.
pub proof fn lemma_or_nibble_value(a: u128, b: u128)
    by (bit_vector)
    ensures
        a < 16 && b < 16 ==> (a | b) < 16,
        (a | b) == 0 <==> a == 0 && b == 0,
{
}

/// AND-ing anything into a confined row keeps it confined.
pub proof fn lemma_and_masked(a: u128, b: u128, t: u128)
    by (bit_vector)
    requires
        t < 128,
        a >> t == 0,
    ensures
        (a & b) >> t == 0,
{
}

/// Every nibble of the zero row is zero.
pub proof fn lemma_zero_nibble(s: u128)
    by (bit_vector)
    requires
        s <= 124,
    ensures
        (0u128 >> s) & 0xF == 0,
        0u128 >> s == 0,
{
}

/// A nibble read out of a row is a nibble.
pub proof fn lemma_nibble_bound(row: u128, s: u128)
    by (bit_vector)
    requires
        s <= 124,
    ensures
        (row >> s) & 0xF < 16,
{
}

/// Represents a bitmask for the game board, one `u128` per row, one
/// nibble per cell.
#[derive(PartialEq, Hash)]
pub struct Mask {
    /// The width of the mask in cells.
    width: i8,
    /// The rows of the mask, flattened into raw bits.
    rows: Vec<u128>,
}

impl View for Mask {
    type V = MaskView;

    closed spec fn view(&self) -> MaskView {
        MaskView { w: self.width as int, rows: self.rows@ }
    }
}

impl Clone for Mask {
    /// A clone of a mask models the same grid.
    fn clone(&self) -> (r: Mask)
        ensures
            r@ == self@,
    {
        let mut rows: Vec<u128> = Vec::new();
        let mut j: usize = 0;
        while j < self.rows.len()
            invariant
                j <= self.rows@.len(),
                rows@ == self.rows@.subrange(0, j as int),
            decreases self.rows@.len() - j,
        {
            rows.push(self.rows[j]);
            j += 1;
        }
        proof {
            assert(rows@ =~= self.rows@);
        }
        Mask { width: self.width, rows }
    }
}

/// Shift a raw row by a signed number of bits; negative shifts right.
fn shift(x: u128, y: i32) -> (r: u128)
    requires
        -128 < y < 128,
    ensures
        r == shift_spec(x, y as int),
{
    if y < 0 {
        x >> ((-y) as u32)
    } else {
        x << (y as u32)
    }
}

impl Mask {
    /// Generate a mask from its width and raw rows.  Every row must be
    /// confined to the width.
    pub fn new(width: i8, mask: Vec<u128>) -> (r: Mask)
        requires
            1 <= width <= 31,
            mask@.len() <= 125,
            forall|j: int| 0 <= j < mask@.len() ==> (#[trigger] mask@[j]) >> ((4 * width) as u128)
                == 0,
        ensures
            r@ == (MaskView { w: width as int, rows: mask@ }),
            r@.wf(),
    {
        Mask { width, rows: mask }
    }

    /// The well-formedness of the underlying view.
    pub open spec fn wf(&self) -> bool {
        self@.wf()
    }

    /// Get the width of the mask.
    pub fn w(&self) -> (r: i8)
        ensures
            r as int == self@.w,
    {
        self.width
    }

    /// Get the height of the mask.
    pub fn h(&self) -> (r: i8)
        requires
            self.wf(),
        ensures
            r as int == self@.rows.len(),
            r >= 0,
    {
        self.rows.len() as i8
    }

    /// The raw rows of the mask.
    pub fn iter(&self) -> (r: &Vec<u128>)
        ensures
            r@ == self@.rows,
    {
        &self.rows
    }

    /// Get the value of a cell in the mask.  Returns `None` if the
    /// position is out of bounds.
    pub fn get(&self, x: i8, y: i8) -> (r: Option<u128>)
        requires
            self.wf(),
            x >= 0,
            y >= 0,
        ensures
            r == if self@.in_bounds(x as int, y as int) {
                Some(self@.cell(x as int, y as int))
            } else {
                None::<u128>
            },
            r is Some ==> r.unwrap() < 16,
    {
        if x >= self.w() || y >= self.h() {
            return None;
        }
        proof {
            lemma_nibble_bound(self@.rows[y as int], (4 * x) as u128);
        }
        Some(self.rows[y as usize] >> ((x as u32) * 4) & 0xF)
    }

    /// Get the value of a cell in the mask.  Returns `None` if the
    /// position (which may be negative) is out of bounds.
    pub fn get_i8(&self, x: i8, y: i8) -> (r: Option<u128>)
        requires
            self.wf(),
        ensures
            r == if self@.in_bounds(x as int, y as int) {
                Some(self@.cell(x as int, y as int))
            } else {
                None::<u128>
            },
            r is Some ==> r.unwrap() < 16,
    {
        if x < 0 || y < 0 {
            return None;
        }
        self.get(x, y)
    }

    /// Get the value of a cell in the mask.  Returns `None` if the
    /// position (which may be negative) is out of bounds.
    pub fn get_i32(&self, x: i32, y: i32) -> (r: Option<u128>)
        requires
            self.wf(),
        ensures
            r == if self@.in_bounds(x as int, y as int) {
                Some(self@.cell(x as int, y as int))
            } else {
                None::<u128>
            },
            r is Some ==> r.unwrap() < 16,
    {
        if x < 0 || y < 0 || x >= 127 || y >= 127 {
            return None;
        }
        self.get(x as i8, y as i8)
    }

    /// Set the value of a cell in the mask, replacing its old value.
    pub fn set(&mut self, x: i8, y: i8, value: u128)
        requires
            old(self).wf(),
            0 <= x < old(self)@.w,
            0 <= y < old(self)@.rows.len(),
            value < 16,
        ensures
            final(self).wf(),
            final(self)@.w == old(self)@.w,
            final(self)@.rows.len() == old(self)@.rows.len(),
            final(self)@.cell(x as int, y as int) == value,
            forall|x2: int, y2: int|
                old(self)@.in_bounds(x2, y2) && !(x2 == x as int && y2 == y as int) ==> final(self)@.cell(x2, y2) == old(self)@.cell(x2, y2),
            forall|j: int|
                0 <= j < final(self)@.rows.len() && j != y as int ==> final(self)@.rows[j] == old(self)@.rows[j],
    {
        let row = self.rows[y as usize];
        let s: u32 = (x as u32) * 4;
        let new_row = row & !(0xFu128 << s) | (value << s);
        self.rows.set(y as usize, new_row);
        proof {
            assert forall|x2: int, y2: int|
                old(self)@.in_bounds(x2, y2) && !(x2 == x as int && y2 == y as int) implies self@
                .cell(x2, y2) == old(self)@.cell(x2, y2) by {
                if y2 == y as int {
                    lemma_nibble_update(
                        row,
                        (4 * x) as u128,
                        (4 * x2) as u128,
                        (4 * old(self)@.w) as u128,
                        value,
                    );
                }
            }
            lemma_nibble_update(
                row,
                (4 * x) as u128,
                0,
                (4 * old(self)@.w) as u128,
                value,
            );
            assert forall|j: int|
                0 <= j < self@.rows.len() implies (#[trigger] self@.rows[j]) >> ((4 * self@.w)
                as u128) == 0 by {
                if j != y as int {
                    assert(self@.rows[j] == old(self)@.rows[j]);
                }
            }
        }
    }

    /// OR a value into a cell of the mask without clearing what the
    /// cell already holds.
    pub fn set_unchecked(&mut self, x: i8, y: i8, value: u128)
        requires
            old(self).wf(),
            0 <= x < old(self)@.w,
            0 <= y < old(self)@.rows.len(),
            value < 16,
        ensures
            final(self).wf(),
            final(self)@.w == old(self)@.w,
            final(self)@.rows.len() == old(self)@.rows.len(),
            final(self)@.cell(x as int, y as int) == old(self)@.cell(x as int, y as int) | value,
            forall|x2: int, y2: int|
                old(self)@.in_bounds(x2, y2) && !(x2 == x as int && y2 == y as int) ==> final(self)@.cell(x2, y2) == old(self)@.cell(x2, y2),
            forall|j: int|
                0 <= j < final(self)@.rows.len() && j != y as int ==> final(self)@.rows[j] == old(self)@.rows[j],
    {
        let row = self.rows[y as usize];
        let s: u32 = (x as u32) * 4;
        let new_row = row | (value << s);
        self.rows.set(y as usize, new_row);
        proof {
            assert forall|x2: int, y2: int|
                old(self)@.in_bounds(x2, y2) && !(x2 == x as int && y2 == y as int) implies self@
                .cell(x2, y2) == old(self)@.cell(x2, y2) by {
                if y2 == y as int {
                    lemma_nibble_or(
                        row,
                        (4 * x) as u128,
                        (4 * x2) as u128,
                        (4 * old(self)@.w) as u128,
                        value,
                    );
                }
            }
            lemma_nibble_or(
                row,
                (4 * x) as u128,
                0,
                (4 * old(self)@.w) as u128,
                value,
            );
            assert forall|j: int|
                0 <= j < self@.rows.len() implies (#[trigger] self@.rows[j]) >> ((4 * self@.w)
                as u128) == 0 by {
                if j != y as int {
                    assert(self@.rows[j] == old(self)@.rows[j]);
                }
            }
        }
    }

    /// Whether this mask models exactly the same grid as another.
    pub fn same_as(&self, other: &Mask) -> (r: bool)
        ensures
            r == (self@ == other@),
    {
        if self.width != other.width || self.rows.len() != other.rows.len() {
            proof {
                assert(self@ != other@);
            }
            return false;
        }
        let mut j: usize = 0;
        while j < self.rows.len()
            invariant
                j <= self.rows@.len(),
                self.rows@.len() == other.rows@.len(),
                self@.w == other@.w,
                forall|i: int| 0 <= i < j ==> self.rows@[i] == other.rows@[i],
            decreases self.rows@.len() - j,
        {
            if self.rows[j] != other.rows[j] {
                proof {
                    assert(self@.rows[j as int] != other@.rows[j as int]);
                }
                return false;
            }
            j += 1;
        }
        proof {
            assert(self.rows@ =~= other.rows@);
            assert(self@ =~= other@);
        }
        true
    }

    /// Check if the mask is all zeros.
    pub fn empty(&self) -> (r: bool)
        ensures
            r == self@.is_empty(),
    {
        let mut j: usize = 0;
        while j < self.rows.len()
            invariant
                j <= self@.rows.len(),
                forall|i: int| 0 <= i < j ==> self@.rows[i] == 0,
            decreases self@.rows.len() - j,
        {
            if self.rows[j] != 0 {
                return false;
            }
            j += 1;
        }
        true
    }

    /// OR another mask into this one, with the other mask's top-left
    /// corner laid at `(x, y)` (which may be negative).
    pub fn assign_or(&mut self, other: &Mask, pos: (i8, i8))
        requires
            old(self).wf(),
            other.wf(),
            -31 <= pos.0 < old(self)@.w,
            pos.1 < old(self)@.rows.len(),
        ensures
            final(self).wf(),
            final(self)@ == view_or(old(self)@, other@, pos.0 as int, pos.1 as int),
    {
        let x = pos.0;
        let y = pos.1;
        let sh: i32 = self.rows.len() as i32;
        let oh: i32 = other.rows.len() as i32;
        let ys: i32 = if (y as i32) >= 0 {
            y as i32
        } else {
            0
        };
        let mut cnt: i32 = if sh - ys <= oh - (ys - y as i32) {
            sh - ys
        } else {
            oh - (ys - y as i32)
        };
        if cnt < 0 {
            cnt = 0;
        }
        assert(ys == overlap_start(y as int));
        assert(cnt == overlap_count(self@.rows.len() as int, other@.rows.len() as int, y as int));
        let w = self.width;
        let amt: u128 = (4 * w as u32) as u128;
        assert(1u128 << amt >= 1) by (bit_vector)
            requires
                amt < 128,
        ;
        let wide: u128 = (1u128 << amt) - 1;
        assert(wide == low_mask(self@.w));
        let ghost orig = self@;
        let mut k: i32 = 0;
        while k < cnt
            invariant
                0 <= k <= cnt,
                ys == overlap_start(y as int),
                ys >= 0,
                cnt == overlap_count(orig.rows.len() as int, other@.rows.len() as int, y as int),
                cnt > 0 ==> ys + cnt <= orig.rows.len(),
                cnt > 0 ==> ys - y as int + cnt <= other@.rows.len(),
                orig.wf(),
                other.wf(),
                -31 <= x < orig.w,
                wide == low_mask(orig.w),
                self@.w == orig.w,
                self@.rows.len() == orig.rows.len(),
                forall|j: int|
                    ys <= j < ys + k ==> self@.rows[j] == ((orig.rows[j] | shift_spec(
                        other@.rows[j - y],
                        4 * x,
                    )) & low_mask(orig.w)),
                forall|j: int|
                    0 <= j < orig.rows.len() && !(ys <= j < ys + k) ==> self@.rows[j]
                        == orig.rows[j],
            decreases cnt - k,
        {
            let j: usize = (ys + k) as usize;
            let orow = other.rows[(ys + k - y as i32) as usize];
            let srow = self.rows[j];
            let new_row = (srow | shift(orow, (x as i32) * 4)) & wide;
            self.rows.set(j, new_row);
            k += 1;
        }
        proof {
            assert forall|j: int| 0 <= j < self@.rows.len() implies self@.rows[j] == view_or(
                orig,
                other@,
                x as int,
                y as int,
            ).rows[j] by {}
            assert(self@.rows =~= view_or(orig, other@, x as int, y as int).rows);
            assert(self@ =~= view_or(orig, other@, x as int, y as int));
            assert forall|j: int|
                0 <= j < self@.rows.len() implies (#[trigger] self@.rows[j]) >> ((4 * self@.w)
                as u128) == 0 by {
                if ys <= j < ys + cnt {
                    lemma_low_mask(
                        orig.rows[j] | shift_spec(other@.rows[j - y], 4 * x),
                        (4 * orig.w) as u128,
                    );
                }
            }
        }
    }

    /// Bitwise OR with another mask laid at a specific position,
    /// returning the new mask.
    pub fn or(&self, other: &Mask, pos: (i8, i8)) -> (r: Mask)
        requires
            self.wf(),
            other.wf(),
            -31 <= pos.0 < self@.w,
            pos.1 < self@.rows.len(),
        ensures
            r.wf(),
            r@ == view_or(self@, other@, pos.0 as int, pos.1 as int),
    {
        let mut mask = self.clone();
        assert(mask@ == self@);
        mask.assign_or(other, pos);
        mask
    }

    /// Bitwise AND with another mask laid at a specific position: the
    /// rows on which the two masks overlap, AND-ed together.  The
    /// result is all zeros exactly when the masks share no set bit.
    pub fn and(&self, other: &Mask, pos: (i8, i8)) -> (r: Mask)
        requires
            self.wf(),
            other.wf(),
            -31 <= pos.0 < self@.w,
            pos.1 < self@.rows.len(),
        ensures
            r.wf(),
            r@.w == self@.w,
            r@.rows.len() == overlap_count(
                self@.rows.len() as int,
                other@.rows.len() as int,
                pos.1 as int,
            ),
            forall|k: int|
                0 <= k < r@.rows.len() ==> r@.rows[k] == (self@.rows[overlap_start(pos.1 as int)
                    + k] & shift_spec(
                    other@.rows[overlap_start(pos.1 as int) + k - pos.1],
                    4 * pos.0,
                )),
            r@.is_empty() == views_disjoint(self@, other@, pos.0 as int, pos.1 as int),
    {
        let x = pos.0;
        let y = pos.1;
        let sh: i32 = self.rows.len() as i32;
        let oh: i32 = other.rows.len() as i32;
        let ys: i32 = if (y as i32) >= 0 {
            y as i32
        } else {
            0
        };
        let mut cnt: i32 = if sh - ys <= oh - (ys - y as i32) {
            sh - ys
        } else {
            oh - (ys - y as i32)
        };
        if cnt < 0 {
            cnt = 0;
        }
        assert(ys == overlap_start(y as int));
        assert(cnt == overlap_count(self@.rows.len() as int, other@.rows.len() as int, y as int));
        let mut rows: Vec<u128> = Vec::new();
        let mut k: i32 = 0;
        while k < cnt
            invariant
                0 <= k <= cnt,
                ys == overlap_start(y as int),
                ys >= 0,
                cnt == overlap_count(self@.rows.len() as int, other@.rows.len() as int, y as int),
                cnt > 0 ==> ys + cnt <= self@.rows.len(),
                cnt > 0 ==> ys - y as int + cnt <= other@.rows.len(),
                self.wf(),
                other.wf(),
                x == pos.0,
                y == pos.1,
                -31 <= x < self@.w,
                rows@.len() == k,
                forall|k2: int|
                    0 <= k2 < k ==> rows@[k2] == (self@.rows[ys + k2] & shift_spec(
                        other@.rows[ys + k2 - y],
                        4 * x,
                    )),
            decreases cnt - k,
        {
            let orow = other.rows[(ys + k - y as i32) as usize];
            let srow = self.rows[(ys + k) as usize];
            rows.push(srow & shift(orow, (x as i32) * 4));
            k += 1;
        }
        proof {
            assert forall|j: int| 0 <= j < rows@.len() implies (#[trigger] rows@[j]) >> ((4
                * self@.w) as u128) == 0 by {
                lemma_and_masked(
                    self@.rows[ys + j],
                    shift_spec(other@.rows[ys + j - y], 4 * x),
                    (4 * self@.w) as u128,
                );
            }
        }
        let r = Mask::new(self.width, rows);
        proof {
            if r@.is_empty() {
                assert forall|j: int|
                    overlap_start(y as int) <= j < overlap_start(y as int) + overlap_count(
                        self@.rows.len() as int,
                        other@.rows.len() as int,
                        y as int,
                    ) implies (#[trigger] self@.rows[j]) & shift_spec(other@.rows[j - y], 4 * x)
                    == 0 by {
                    assert(r@.rows[j - ys] == 0);
                }
            }
            if views_disjoint(self@, other@, x as int, y as int) {
                assert forall|j: int| 0 <= j < r@.rows.len() implies r@.rows[j] == 0 by {
                    assert(self@.rows[ys + j] & shift_spec(other@.rows[ys + j - y], 4 * x) == 0);
                }
            }
        }
        r
    }

    /// Check that this mask and another laid at `(x, y)` share no set
    /// bit.
    pub fn no_overlap(&self, other: &Mask, pos: (i8, i8)) -> (r: bool)
        requires
            self.wf(),
            other.wf(),
            -31 <= pos.0 < self@.w,
            pos.1 < self@.rows.len(),
        ensures
            r == views_disjoint(self@, other@, pos.0 as int, pos.1 as int),
    {
        let x = pos.0;
        let y = pos.1;
        let sh: i32 = self.rows.len() as i32;
        let oh: i32 = other.rows.len() as i32;
        let ys: i32 = if (y as i32) >= 0 {
            y as i32
        } else {
            0
        };
        let mut cnt: i32 = if sh - ys <= oh - (ys - y as i32) {
            sh - ys
        } else {
            oh - (ys - y as i32)
        };
        if cnt < 0 {
            cnt = 0;
        }
        assert(ys == overlap_start(y as int));
        assert(cnt == overlap_count(self@.rows.len() as int, other@.rows.len() as int, y as int));
        let mut k: i32 = 0;
        while k < cnt
            invariant
                0 <= k <= cnt,
                ys == overlap_start(y as int),
                ys >= 0,
                cnt == overlap_count(self@.rows.len() as int, other@.rows.len() as int, y as int),
                cnt > 0 ==> ys + cnt <= self@.rows.len(),
                cnt > 0 ==> ys - y as int + cnt <= other@.rows.len(),
                self.wf(),
                other.wf(),
                x == pos.0,
                y == pos.1,
                -31 <= x < self@.w,
                forall|j: int|
                    ys <= j < ys + k ==> (#[trigger] self@.rows[j]) & shift_spec(
                        other@.rows[j - y],
                        4 * x,
                    ) == 0,
            decreases cnt - k,
        {
            let j: usize = (ys + k) as usize;
            let orow = other.rows[(ys + k - y as i32) as usize];
            let srow = self.rows[j];
            if srow & shift(orow, (x as i32) * 4) != 0 {
                proof {
                    let jj = (ys + k) as int;
                    assert(self@.rows[jj] & shift_spec(other@.rows[jj - y], 4 * x) != 0);
                    assert(overlap_start(y as int) <= jj < overlap_start(y as int)
                        + overlap_count(
                        self@.rows.len() as int,
                        other@.rows.len() as int,
                        y as int,
                    ));
                    assert(!views_disjoint(self@, other@, x as int, y as int));
                }
                return false;
            }
            k += 1;
        }
        true
    }
}

impl Dimensioned for Mask {
    /// Get the width of the mask.
    fn w(&self) -> i8 {
        self.width
    }

    /// Get the height of the mask, saturated to the largest cell
    /// coordinate.
    fn h(&self) -> i8 {
        let n = self.rows.len();
        if n > 127 {
            127
        } else {
            n as i8
        }
    }
}

} // verus!
