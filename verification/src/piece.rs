//! Pieces and their dihedral transforms.
//!
//! A base piece is a small mask.  A [`TransformedPiece`] is one of its up
//! to eight rotation/reflection images, together with the derived
//! patterns the engine matches against the board: the neighbor mask (the
//! piece padded by its orthogonal exclusion halo) and, per diagonal
//! direction, the list of piece cells whose diagonal step in that
//! direction is a permitted anchor attachment.

use crate::mask::{lemma_or_nibble_value, lemma_zero_nibble, Mask, MaskView};
use crate::utils::{Corner, Dimensioned, Reflection, Rotation, Transformation};
use vstd::prelude::*;

verus! {

/// The value of a cell of `m`, with everything out of bounds reading as
/// empty.
pub open spec fn cellz(m: MaskView, x: int, y: int) -> u128 {
    if m.in_bounds(x, y) {
        m.cell(x, y)
    } else {
        0
    }
}

/// The neighbor-mask cell at `(a, b)`, where `(a, b)` ranges over the
/// piece padded by one cell on every side: `0xF` on the piece's own
/// cells, the OR of the orthogonally adjacent piece cells elsewhere.
pub open spec fn neighbor_cell_spec(m: MaskView, a: int, b: int) -> u128 {
    if cellz(m, a - 1, b - 1) != 0 {
        0xF
    } else {
        cellz(m, a - 2, b - 1) | cellz(m, a, b - 1) | cellz(m, a - 1, b - 2) | cellz(m, a - 1, b)
    }
}

/// Whether piece cell `(i, j)` of `m` is a corner in diagonal direction
/// `d` (indexed as in [`Corner`]): the cell is occupied and both cells
/// orthogonally between it and its diagonal step are empty.
pub open spec fn is_piece_corner(m: MaskView, d: int, i: int, j: int) -> bool {
    &&& cellz(m, i, j) != 0
    &&& cellz(m, i + corner_dx(d), j) == 0
    &&& cellz(m, i, j + corner_dy(d)) == 0
}

/// The x component of the diagonal step of corner direction `d`.
pub open spec fn corner_dx(d: int) -> int {
    if d == 0 || d == 2 {
        1
    } else {
        -1
    }
}

/// The y component of the diagonal step of corner direction `d`.
pub open spec fn corner_dy(d: int) -> int {
    if d == 0 || d == 1 {
        1
    } else {
        -1
    }
}

/// A sequence extended by one element contains exactly what it
/// contained before, plus that element.
pub proof fn lemma_push_contains<T>(s: Seq<T>, x: T, q: T)
    ensures
        s.push(x).contains(q) <==> (s.contains(q) || q == x),
{
    if s.push(x).contains(q) {
        let i = choose|i: int| 0 <= i < s.push(x).len() && s.push(x)[i] == q;
        if i < s.len() {
            assert(s[i] == q);
        } else {
            assert(q == x);
        }
    }
    if s.contains(q) {
        let i = choose|i: int| 0 <= i < s.len() && s[i] == q;
        assert(s.push(x)[i] == q);
    }
    if q == x {
        assert(s.push(x)[s.len() as int] == q);
    }
}

/// A vector of `n` zeroed raw rows.
pub(crate) fn zero_rows(n: usize) -> (r: Vec<u128>)
    ensures
        r@.len() == n,
        forall|j: int| 0 <= j < n ==> r@[j] == 0,
{
    let mut r: Vec<u128> = Vec::new();
    let mut i: usize = 0;
    while i < n
        invariant
            i <= n,
            r@.len() == i,
            forall|j: int| 0 <= j < i ==> r@[j] == 0,
        decreases n - i,
    {
        r.push(0);
        i += 1;
    }
    r
}

/// Rotate a mask by 90 degrees clockwise.
pub fn rotate(mask: &Mask) -> (r: Mask)
    requires
        mask.wf(),
        1 <= mask@.rows.len() <= 31,
    ensures
        r.wf(),
        r@.w == mask@.rows.len(),
        r@.rows.len() == mask@.w,
        forall|x: int, y: int|
            r@.in_bounds(x, y) ==> r@.cell(x, y) == mask@.cell(mask@.w - 1 - y, x),
{
    let width = mask.w();
    let height = mask.h();
    let zr = zero_rows(width as usize);
    proof {
        assert forall|j: int| 0 <= j < zr@.len() implies (#[trigger] zr@[j]) >> ((4 * height)
            as u128) == 0 by {
            lemma_zero_nibble((4 * height) as u128);
        }
    }
    let mut new_mask = Mask::new(height, zr);
    proof {
        assert forall|x: int, y: int| new_mask@.in_bounds(x, y) implies #[trigger] new_mask@.cell(
            x,
            y,
        ) == 0 by {
            lemma_zero_nibble((4 * x) as u128);
        }
    }
    let mut i: i8 = 0;
    while i < width
        invariant
            0 <= i <= width,
            width as int == mask@.w,
            height as int == mask@.rows.len(),
            mask.wf(),
            new_mask.wf(),
            new_mask@.w == height as int,
            new_mask@.rows.len() == width as int,
            forall|x: int, y: int|
                new_mask@.in_bounds(x, y) ==> #[trigger] new_mask@.cell(x, y) == (
                if mask@.w - 1 - y < i {
                    mask@.cell(mask@.w - 1 - y, x)
                } else {
                    0
                }),
        decreases width - i,
    {
        let mut j: i8 = 0;
        while j < height
            invariant
                0 <= i < width,
                0 <= j <= height,
                width as int == mask@.w,
                height as int == mask@.rows.len(),
                mask.wf(),
                new_mask.wf(),
                new_mask@.w == height as int,
                new_mask@.rows.len() == width as int,
                forall|x: int, y: int|
                    new_mask@.in_bounds(x, y) ==> #[trigger] new_mask@.cell(x, y) == (
                    if mask@.w - 1 - y < i || (mask@.w - 1 - y == i && x < j) {
                        mask@.cell(mask@.w - 1 - y, x)
                    } else {
                        0
                    }),
            decreases height - j,
        {
            let bit = match mask.get(i, j) {
                Some(b) => b,
                None => 0,
            };
            new_mask.set(j, width - i - 1, bit);
            j += 1;
        }
        i += 1;
    }
    new_mask
}

/// Flip a mask vertically.
pub fn flip(mask: Mask) -> (r: Mask)
    requires
        mask.wf(),
    ensures
        r.wf(),
        r@.w == mask@.w,
        r@.rows.len() == mask@.rows.len(),
        forall|j: int|
            0 <= j < r@.rows.len() ==> r@.rows[j] == mask@.rows[mask@.rows.len() - 1 - j],
{
    let w = mask.w();
    let h = mask.h();
    let raw = mask.iter();
    let mut rev: Vec<u128> = Vec::new();
    let mut j: usize = 0;
    while j < raw.len()
        invariant
            j <= raw@.len(),
            raw@ == mask@.rows,
            mask.wf(),
            rev@.len() == j,
            forall|i: int| 0 <= i < j ==> rev@[i] == mask@.rows[mask@.rows.len() - 1 - i],
        decreases raw@.len() - j,
    {
        rev.push(raw[raw.len() - 1 - j]);
        j += 1;
    }
    Mask::new(w, rev)
}


/// The exact cell-level relation between a mask `a` and its image `b`
/// under one dihedral transformation: the rotation is applied first
/// (in quarter turns clockwise), then the optional vertical flip.
#[verifier::opaque]
pub open spec fn transform_rel(t: Transformation, a: MaskView, b: MaskView) -> bool {
    let w = a.w;
    let h = a.rows.len() as int;
    match t {
        Transformation(Rotation::Zero, Reflection::NoFlip) => {
            &&& b.w == w
            &&& b.rows.len() == h
            &&& forall|x: int, y: int| b.in_bounds(x, y) ==> #[trigger] b.cell(x, y) == a.cell(x, y)
        },
        Transformation(Rotation::Ninety, Reflection::NoFlip) => {
            &&& b.w == h
            &&& b.rows.len() == w
            &&& forall|x: int, y: int|
                b.in_bounds(x, y) ==> #[trigger] b.cell(x, y) == a.cell(w - 1 - y, x)
        },
        Transformation(Rotation::OneEighty, Reflection::NoFlip) => {
            &&& b.w == w
            &&& b.rows.len() == h
            &&& forall|x: int, y: int|
                b.in_bounds(x, y) ==> #[trigger] b.cell(x, y) == a.cell(w - 1 - x, h - 1 - y)
        },
        Transformation(Rotation::TwoSeventy, Reflection::NoFlip) => {
            &&& b.w == h
            &&& b.rows.len() == w
            &&& forall|x: int, y: int|
                b.in_bounds(x, y) ==> #[trigger] b.cell(x, y) == a.cell(y, h - 1 - x)
        },
        Transformation(Rotation::Zero, Reflection::Flip) => {
            &&& b.w == w
            &&& b.rows.len() == h
            &&& forall|x: int, y: int|
                b.in_bounds(x, y) ==> #[trigger] b.cell(x, y) == a.cell(x, h - 1 - y)
        },
        Transformation(Rotation::Ninety, Reflection::Flip) => {
            &&& b.w == h
            &&& b.rows.len() == w
            &&& forall|x: int, y: int| b.in_bounds(x, y) ==> #[trigger] b.cell(x, y) == a.cell(y, x)
        },
        Transformation(Rotation::OneEighty, Reflection::Flip) => {
            &&& b.w == w
            &&& b.rows.len() == h
            &&& forall|x: int, y: int|
                b.in_bounds(x, y) ==> #[trigger] b.cell(x, y) == a.cell(w - 1 - x, y)
        },
        Transformation(Rotation::TwoSeventy, Reflection::Flip) => {
            &&& b.w == h
            &&& b.rows.len() == w
            &&& forall|x: int, y: int|
                b.in_bounds(x, y) ==> #[trigger] b.cell(x, y) == a.cell(w - 1 - y, h - 1 - x)
        },
    }
}

/// Transform a mask by a dihedral transformation.
pub fn transform(transformation: Transformation, mask: &Mask) -> (r: Mask)
    requires
        mask.wf(),
        1 <= mask@.w <= 31,
        1 <= mask@.rows.len() <= 31,
    ensures
        r.wf(),
        transform_rel(transformation, mask@, r@),
        (transformation.0 == Rotation::Zero || transformation.0 == Rotation::OneEighty) ==> r@.w
            == mask@.w && r@.rows.len() == mask@.rows.len(),
        (transformation.0 == Rotation::Ninety || transformation.0 == Rotation::TwoSeventy) ==> r@.w
            == mask@.rows.len() && r@.rows.len() == mask@.w,
{
    let Transformation(rotation, reflection) = transformation;
    let ghost w = mask@.w;
    let ghost h = mask@.rows.len() as int;
    let m = match rotation {
        Rotation::Zero => mask.clone(),
        Rotation::Ninety => rotate(mask),
        Rotation::OneEighty => {
            let r1 = rotate(mask);
            let r2 = rotate(&r1);
            proof {
                assert forall|x: int, y: int| r2@.in_bounds(x, y) implies #[trigger] r2@.cell(x, y)
                    == mask@.cell(w - 1 - x, h - 1 - y) by {
                    assert(r2@.cell(x, y) == r1@.cell(r1@.w - 1 - y, x));
                }
            }
            r2
        },
        Rotation::TwoSeventy => {
            let r1 = rotate(mask);
            let r2 = rotate(&r1);
            let r3 = rotate(&r2);
            proof {
                assert forall|x: int, y: int| r2@.in_bounds(x, y) implies #[trigger] r2@.cell(x, y)
                    == mask@.cell(w - 1 - x, h - 1 - y) by {
                    assert(r2@.cell(x, y) == r1@.cell(r1@.w - 1 - y, x));
                }
                assert forall|x: int, y: int| r3@.in_bounds(x, y) implies #[trigger] r3@.cell(x, y)
                    == mask@.cell(y, h - 1 - x) by {
                    assert(r3@.cell(x, y) == r2@.cell(r2@.w - 1 - y, x));
                }
            }
            r3
        },
    };
    match reflection {
        Reflection::Flip => {
            let f = flip(m);
            proof {
                assert forall|x: int, y: int| f@.in_bounds(x, y) implies #[trigger] f@.cell(x, y)
                    == m@.cell(x, m@.rows.len() - 1 - y) by {
                    assert(f@.rows[y] == m@.rows[m@.rows.len() - 1 - y]);
                }
                reveal(transform_rel);
                assert(transform_rel(transformation, mask@, f@));
            }
            f
        },
        Reflection::NoFlip => {
            proof {
                reveal(transform_rel);
                assert(transform_rel(transformation, mask@, m@));
            }
            m
        },
    }
}

/// The piece cells of `mask` that are corners in direction `d`, in
/// column-major order.
fn corner_list(mask: &Mask, d: usize) -> (r: Vec<(i8, i8)>)
    requires
        mask.wf(),
        1 <= mask@.w <= 29,
        1 <= mask@.rows.len() <= 29,
        d < 4,
    ensures
        forall|p: (i8, i8)|
            #[trigger] r@.contains(p) <==> (mask@.in_bounds(p.0 as int, p.1 as int)
                && is_piece_corner(mask@, d as int, p.0 as int, p.1 as int)),
        forall|i: int, j: int| 0 <= i < j < r@.len() ==> r@[i] != r@[j],
{
    let w = mask.w();
    let h = mask.h();
    let dir = Corner::from_id(d);
    proof {
        assert(dir.spec_dx() == corner_dx(d as int) && dir.spec_dy() == corner_dy(d as int));
    }
    let mut list: Vec<(i8, i8)> = Vec::new();
    let mut i: i8 = 0;
    while i < w
        invariant
            0 <= i <= w,
            w as int == mask@.w,
            h as int == mask@.rows.len(),
            1 <= w <= 29,
            1 <= h <= 29,
            mask.wf(),
            d < 4,
            dir.spec_dx() == corner_dx(d as int),
            dir.spec_dy() == corner_dy(d as int),
            forall|p: (i8, i8)|
                #[trigger] list@.contains(p) <==> (mask@.in_bounds(p.0 as int, p.1 as int) && p.0
                    < i && is_piece_corner(mask@, d as int, p.0 as int, p.1 as int)),
            forall|i2: int, j2: int| 0 <= i2 < j2 < list@.len() ==> list@[i2] != list@[j2],
        decreases w - i,
    {
        let mut j: i8 = 0;
        while j < h
            invariant
                0 <= i < w,
                0 <= j <= h,
                w as int == mask@.w,
                h as int == mask@.rows.len(),
                1 <= w <= 29,
                1 <= h <= 29,
                mask.wf(),
                d < 4,
                dir.spec_dx() == corner_dx(d as int),
                dir.spec_dy() == corner_dy(d as int),
                forall|p: (i8, i8)|
                    #[trigger] list@.contains(p) <==> (mask@.in_bounds(p.0 as int, p.1 as int) && (
                    p.0 < i || (p.0 == i && p.1 < j)) && is_piece_corner(
                        mask@,
                        d as int,
                        p.0 as int,
                        p.1 as int,
                    )),
                forall|i2: int, j2: int| 0 <= i2 < j2 < list@.len() ==> list@[i2] != list@[j2],
            decreases h - j,
        {
            let cell = mask.get(i, j).unwrap_or(0);
            if cell != 0 {
                let (ci, cj) = dir.offset(i, j);
                let n1 = mask.get_i8(ci, j).unwrap_or(0);
                let n2 = mask.get_i8(i, cj).unwrap_or(0);
                if n1 == 0 && n2 == 0 {
                    let ghost old_list = list@;
                    proof {
                        assert(!old_list.contains((i, j)));
                    }
                    list.push((i, j));
                    proof {
                        assert forall|p: (i8, i8)| #[trigger]
                            list@.contains(p) <==> (old_list.contains(p) || p == (i, j)) by {
                            lemma_push_contains(old_list, (i, j), p);
                        }
                        assert forall|i2: int, j2: int|
                            0 <= i2 < j2 < list@.len() implies list@[i2] != list@[j2] by {
                            if j2 == list@.len() - 1 {
                                assert(old_list.contains(old_list[i2]));
                            }
                        }
                    }
                }
            }
            j += 1;
        }
        i += 1;
    }
    list
}

/// A transformed piece: its occupancy mask, its neighbor mask, and its
/// per-direction corner cells.
pub struct TransformedPiece {
    /// The occupancy mask of the piece.
    pub mask: Mask,
    /// Mask representing the piece padded by its orthogonal exclusion
    /// halo.  If the piece looks like
    /// ```text
    ///   01
    ///   11
    /// ```
    /// then the neighbor mask is
    /// ```text
    ///   0010
    ///   01f1
    ///   1ff1
    ///   0110
    /// ```
    pub neighbor_mask: Mask,
    /// For each diagonal direction, the piece cells whose step in that
    /// direction may touch an anchor.
    pub corners: [Vec<(i8, i8)>; 4],
}

impl TransformedPiece {
    /// Structural and semantic well-formedness: the neighbor mask and
    /// the corner lists are exactly what the occupancy mask dictates.
    pub open spec fn wf(self) -> bool {
        &&& self.mask@.wf()
        &&& 1 <= self.mask@.w <= 29
        &&& 1 <= self.mask@.rows.len() <= 29
        &&& self.neighbor_mask@.wf()
        &&& self.neighbor_mask@.w == self.mask@.w + 2
        &&& self.neighbor_mask@.rows.len() == self.mask@.rows.len() + 2
        &&& forall|a: int, b: int|
            self.neighbor_mask@.in_bounds(a, b) ==> #[trigger] self.neighbor_mask@.cell(a, b)
                == neighbor_cell_spec(self.mask@, a, b)
        &&& forall|d: int, p: (i8, i8)|
            0 <= d < 4 ==> (#[trigger] self.corners[d]@.contains(p) <==> self.mask@.in_bounds(
                p.0 as int,
                p.1 as int,
            ) && is_piece_corner(self.mask@, d, p.0 as int, p.1 as int))
    }

    /// Derive the neighbor mask and the corner lists from an occupancy
    /// mask.
    pub fn new(mask: Mask) -> (r: TransformedPiece)
        requires
            mask.wf(),
            1 <= mask@.w <= 29,
            1 <= mask@.rows.len() <= 29,
        ensures
            r.wf(),
            r.mask@ == mask@,
    {
        let w = mask.w();
        let h = mask.h();
        let zr = zero_rows((h + 2) as usize);
        proof {
            assert forall|j: int| 0 <= j < zr@.len() implies (#[trigger] zr@[j]) >> ((4 * (w + 2))
                as u128) == 0 by {
                lemma_zero_nibble((4 * (w + 2)) as u128);
            }
        }
        let mut neighbor_mask = Mask::new(w + 2, zr);
        let mut b: i8 = 0;
        while b < h + 2
            invariant
                0 <= b <= h + 2,
                w as int == mask@.w,
                h as int == mask@.rows.len(),
                1 <= w <= 29,
                1 <= h <= 29,
                mask.wf(),
                neighbor_mask.wf(),
                neighbor_mask@.w == w + 2,
                neighbor_mask@.rows.len() == h + 2,
                forall|x: int, y: int|
                    neighbor_mask@.in_bounds(x, y) && y < b ==> #[trigger] neighbor_mask@.cell(
                        x,
                        y,
                    ) == neighbor_cell_spec(mask@, x, y),
            decreases h + 2 - b,
        {
            let mut a: i8 = 0;
            while a < w + 2
                invariant
                    0 <= a <= w + 2,
                    0 <= b < h + 2,
                    w as int == mask@.w,
                    h as int == mask@.rows.len(),
                    1 <= w <= 29,
                    1 <= h <= 29,
                    mask.wf(),
                    neighbor_mask.wf(),
                    neighbor_mask@.w == w + 2,
                    neighbor_mask@.rows.len() == h + 2,
                    forall|x: int, y: int|
                        neighbor_mask@.in_bounds(x, y) && (y < b || (y == b && x < a))
                            ==> #[trigger] neighbor_mask@.cell(x, y) == neighbor_cell_spec(
                            mask@,
                            x,
                            y,
                        ),
                decreases w + 2 - a,
            {
                let center = mask.get_i8(a - 1, b - 1).unwrap_or(0);
                let v: u128 = if center != 0 {
                    0xF
                } else {
                    let n1 = mask.get_i8(a - 2, b - 1).unwrap_or(0);
                    let n2 = mask.get_i8(a, b - 1).unwrap_or(0);
                    let n3 = mask.get_i8(a - 1, b - 2).unwrap_or(0);
                    let n4 = mask.get_i8(a - 1, b).unwrap_or(0);
                    proof {
                        lemma_or_nibble_value(n1, n2);
                        lemma_or_nibble_value(n1 | n2, n3);
                        lemma_or_nibble_value(n1 | n2 | n3, n4);
                    }
                    n1 | n2 | n3 | n4
                };
                neighbor_mask.set(a, b, v);
                a += 1;
            }
            b += 1;
        }

        let c0 = corner_list(&mask, 0);
        let c1 = corner_list(&mask, 1);
        let c2 = corner_list(&mask, 2);
        let c3 = corner_list(&mask, 3);
        let corners: [Vec<(i8, i8)>; 4] = [c0, c1, c2, c3];
        TransformedPiece { mask, neighbor_mask, corners }
    }

    /// All non-empty cells of the neighbor mask, each with its value,
    /// positioned relative to the top-left corner of the piece.
    pub fn tile_iter(&self) -> (r: Vec<(i8, i8, u128)>)
        requires
            self.wf(),
        ensures
            forall|t: (i8, i8, u128)|
                #[trigger] r@.contains(t) <==> (self.neighbor_mask@.in_bounds(
                    t.0 + 1,
                    t.1 + 1,
                ) && t.2 == self.neighbor_mask@.cell(t.0 + 1, t.1 + 1) && t.2 != 0),
            forall|i: int, j: int| #![trigger r@[i], r@[j]] 0 <= i < j < r@.len() ==> r@[i] != r@[j],
    {
        let mut r: Vec<(i8, i8, u128)> = Vec::new();
        let nw = self.neighbor_mask.w();
        let nh = self.neighbor_mask.h();
        let mut x: i8 = 0;
        while x < nw
            invariant
                0 <= x <= nw,
                nw as int == self.neighbor_mask@.w,
                nh as int == self.neighbor_mask@.rows.len(),
                self.wf(),
                forall|t: (i8, i8, u128)|
                    #[trigger] r@.contains(t) <==> (self.neighbor_mask@.in_bounds(
                        t.0 + 1,
                        t.1 + 1,
                    ) && t.0 + 1 < x && t.2 == self.neighbor_mask@.cell(t.0 + 1, t.1 + 1) && t.2
                        != 0),
                forall|i: int, j: int|
                    #![trigger r@[i], r@[j]]
                    0 <= i < j < r@.len() ==> r@[i] != r@[j],
            decreases nw - x,
        {
            let mut y: i8 = 0;
            while y < nh
                invariant
                    0 <= x < nw,
                    0 <= y <= nh,
                    nw as int == self.neighbor_mask@.w,
                    nh as int == self.neighbor_mask@.rows.len(),
                    self.wf(),
                    forall|t: (i8, i8, u128)|
                        #[trigger] r@.contains(t) <==> (self.neighbor_mask@.in_bounds(
                            t.0 + 1,
                            t.1 + 1,
                        ) && (t.0 + 1 < x || (t.0 + 1 == x && t.1 + 1 < y)) && t.2
                            == self.neighbor_mask@.cell(t.0 + 1, t.1 + 1) && t.2 != 0),
                    forall|i: int, j: int|
                        #![trigger r@[i], r@[j]]
                        0 <= i < j < r@.len() ==> r@[i] != r@[j],
                decreases nh - y,
            {
                let v = self.neighbor_mask.get(x, y).unwrap_or(0);
                if v != 0 {
                    let ghost old_r = r@;
                    proof {
                        assert(!old_r.contains(((x - 1) as i8, (y - 1) as i8, v)));
                    }
                    r.push((x - 1, y - 1, v));
                    proof {
                        assert forall|i: int, j: int|
                            #![trigger r@[i], r@[j]]
                            0 <= i < j < r@.len() implies r@[i] != r@[j] by {
                            if j == r@.len() - 1 {
                                assert(old_r.contains(old_r[i]));
                            }
                        }
                        assert forall|t: (i8, i8, u128)| #[trigger]
                            r@.contains(t) <==> (old_r.contains(t) || t == ((x - 1) as i8, (
                        y - 1) as i8, v)) by {
                            lemma_push_contains(old_r, ((x - 1) as i8, (y - 1) as i8, v), t);
                        }
                    }
                }
                y += 1;
            }
            x += 1;
        }
        r
    }
}

impl Dimensioned for TransformedPiece {
    /// Get the width of the piece.
    fn w(&self) -> i8 {
        self.mask.w()
    }

    /// Get the height of the piece.
    fn h(&self) -> i8 {
        let n = self.mask.iter().len();
        if n > 127 {
            127
        } else {
            n as i8
        }
    }
}


/// `m` is the image of `base` under some dihedral transformation.
pub open spec fn is_dihedral_image(base: MaskView, m: MaskView) -> bool {
    exists|k: int|
        #![trigger Transformation::all()[k]]
        0 <= k < 8 && transform_rel(Transformation::all()[k], base, m)
}


/// Every one of the eight dihedral transformations of `base` is
/// represented among the versions.
pub open spec fn covers_all_transforms(versions: Seq<TransformedPiece>, base: MaskView) -> bool {
    &&& exists|i: int|
            0 <= i < versions.len() && transform_rel(Transformation(Rotation::Zero, Reflection::NoFlip), base, (#[trigger] versions[i]).mask@)
    &&& exists|i: int|
            0 <= i < versions.len() && transform_rel(Transformation(Rotation::Ninety, Reflection::NoFlip), base, (#[trigger] versions[i]).mask@)
    &&& exists|i: int|
            0 <= i < versions.len() && transform_rel(Transformation(Rotation::OneEighty, Reflection::NoFlip), base, (#[trigger] versions[i]).mask@)
    &&& exists|i: int|
            0 <= i < versions.len() && transform_rel(Transformation(Rotation::TwoSeventy, Reflection::NoFlip), base, (#[trigger] versions[i]).mask@)
    &&& exists|i: int|
            0 <= i < versions.len() && transform_rel(Transformation(Rotation::Zero, Reflection::Flip), base, (#[trigger] versions[i]).mask@)
    &&& exists|i: int|
            0 <= i < versions.len() && transform_rel(Transformation(Rotation::Ninety, Reflection::Flip), base, (#[trigger] versions[i]).mask@)
    &&& exists|i: int|
            0 <= i < versions.len() && transform_rel(Transformation(Rotation::OneEighty, Reflection::Flip), base, (#[trigger] versions[i]).mask@)
    &&& exists|i: int|
            0 <= i < versions.len() && transform_rel(Transformation(Rotation::TwoSeventy, Reflection::Flip), base, (#[trigger] versions[i]).mask@)
}

/// The versions of `pc` are exactly the distinct dihedral images of
/// `base`: every version is the image of `base` under one of the
/// eight transformations, no two versions share an occupancy pattern,
/// and every one of the eight transformations is represented by some
/// version.
#[verifier::opaque]
pub open spec fn piece_generates(pc: Piece, base: MaskView) -> bool {
    &&& 1 <= pc.versions@.len() <= 8
    &&& forall|i: int| 0 <= i < pc.versions@.len() ==> (#[trigger] pc.versions@[i]).wf()
    &&& forall|i: int|
        0 <= i < pc.versions@.len() ==> is_dihedral_image(base, (#[trigger] pc.versions@[i]).mask@)
    &&& forall|i: int, j: int|
        #![trigger pc.versions@[i], pc.versions@[j]]
        0 <= i < j < pc.versions@.len() ==> pc.versions@[i].mask@ != pc.versions@[j].mask@
    &&& covers_all_transforms(pc.versions@, base)
}



/// The first `t` dihedral transformations are each represented among
/// the collected masks.
#[verifier::opaque]
pub open spec fn covers_upto(masks: Seq<Mask>, base: MaskView, t: int) -> bool {
    forall|k: int|
        #![trigger Transformation::all()[k]]
        0 <= k < t ==> exists|i: int|
            0 <= i < masks.len() && transform_rel(
                Transformation::all()[k],
                base,
                (#[trigger] masks[i])@,
            )
}

/// No transformation is represented by an empty collection, vacuously.
proof fn lemma_covers_empty(masks: Seq<Mask>, base: MaskView)
    requires
        masks.len() == 0,
    ensures
        covers_upto(masks, base, 0),
{
    reveal(covers_upto);
}

/// Appending the image of the next transformation extends coverage.
proof fn lemma_covers_push(masks: Seq<Mask>, m: Mask, base: MaskView, t: int)
    requires
        covers_upto(masks, base, t),
        transform_rel(Transformation::all()[t], base, m@),
    ensures
        covers_upto(masks.push(m), base, t + 1),
{
    reveal(covers_upto);
    assert forall|k: int|
        #![trigger Transformation::all()[k]]
        0 <= k < t + 1 implies exists|i: int|
        0 <= i < masks.push(m).len() && transform_rel(
            Transformation::all()[k],
            base,
            (#[trigger] masks.push(m)[i])@,
        ) by {
        if k < t {
            let i = choose|i: int|
                0 <= i < masks.len() && transform_rel(
                    Transformation::all()[k],
                    base,
                    (#[trigger] masks[i])@,
                );
            assert(masks.push(m)[i] == masks[i]);
        } else {
            assert(masks.push(m)[masks.len() as int] == m);
        }
    }
}

/// If the next transformation's image already equals a collected
/// mask, coverage extends without appending.
proof fn lemma_covers_stay(masks: Seq<Mask>, base: MaskView, t: int, idx: int)
    requires
        covers_upto(masks, base, t),
        0 <= idx < masks.len(),
        transform_rel(Transformation::all()[t], base, masks[idx]@),
    ensures
        covers_upto(masks, base, t + 1),
{
    reveal(covers_upto);
    assert forall|k: int|
        #![trigger Transformation::all()[k]]
        0 <= k < t + 1 implies exists|i: int|
        0 <= i < masks.len() && transform_rel(
            Transformation::all()[k],
            base,
            (#[trigger] masks[i])@,
        ) by {
        if k < t {
            let i = choose|i: int|
                0 <= i < masks.len() && transform_rel(
                    Transformation::all()[k],
                    base,
                    (#[trigger] masks[i])@,
                );
        } else {
            assert(transform_rel(Transformation::all()[k], base, masks[idx]@));
        }
    }
}

/// Coverage carries over from the masks to the versions built from
/// them one for one.
proof fn lemma_covers_versions(masks: Seq<Mask>, versions: Seq<TransformedPiece>, base: MaskView)
    requires
        covers_upto(masks, base, 8),
        versions.len() == masks.len(),
        forall|i: int| 0 <= i < versions.len() ==> (#[trigger] versions[i]).mask@ == masks[i]@,
    ensures
        covers_all_transforms(versions, base),
{
    reveal(covers_upto);
    assert(Transformation::all()[0] == Transformation(Rotation::Zero, Reflection::NoFlip));
    assert(exists|i: int|
            0 <= i < versions.len() && transform_rel(Transformation(Rotation::Zero, Reflection::NoFlip), base, (#[trigger] versions[i]).mask@)) by {
        assert(0 <= 0 < 8);
        let i = choose|i: int|
            0 <= i < masks.len() && transform_rel(Transformation::all()[0], base, (#[trigger] masks[i])@);
        assert(versions[i].mask@ == masks[i]@);
        assert(transform_rel(Transformation(Rotation::Zero, Reflection::NoFlip), base, versions[i].mask@));
    }
    assert(Transformation::all()[1] == Transformation(Rotation::Ninety, Reflection::NoFlip));
    assert(exists|i: int|
            0 <= i < versions.len() && transform_rel(Transformation(Rotation::Ninety, Reflection::NoFlip), base, (#[trigger] versions[i]).mask@)) by {
        assert(0 <= 1 < 8);
        let i = choose|i: int|
            0 <= i < masks.len() && transform_rel(Transformation::all()[1], base, (#[trigger] masks[i])@);
        assert(versions[i].mask@ == masks[i]@);
        assert(transform_rel(Transformation(Rotation::Ninety, Reflection::NoFlip), base, versions[i].mask@));
    }
    assert(Transformation::all()[2] == Transformation(Rotation::OneEighty, Reflection::NoFlip));
    assert(exists|i: int|
            0 <= i < versions.len() && transform_rel(Transformation(Rotation::OneEighty, Reflection::NoFlip), base, (#[trigger] versions[i]).mask@)) by {
        assert(0 <= 2 < 8);
        let i = choose|i: int|
            0 <= i < masks.len() && transform_rel(Transformation::all()[2], base, (#[trigger] masks[i])@);
        assert(versions[i].mask@ == masks[i]@);
        assert(transform_rel(Transformation(Rotation::OneEighty, Reflection::NoFlip), base, versions[i].mask@));
    }
    assert(Transformation::all()[3] == Transformation(Rotation::TwoSeventy, Reflection::NoFlip));
    assert(exists|i: int|
            0 <= i < versions.len() && transform_rel(Transformation(Rotation::TwoSeventy, Reflection::NoFlip), base, (#[trigger] versions[i]).mask@)) by {
        assert(0 <= 3 < 8);
        let i = choose|i: int|
            0 <= i < masks.len() && transform_rel(Transformation::all()[3], base, (#[trigger] masks[i])@);
        assert(versions[i].mask@ == masks[i]@);
        assert(transform_rel(Transformation(Rotation::TwoSeventy, Reflection::NoFlip), base, versions[i].mask@));
    }
    assert(Transformation::all()[4] == Transformation(Rotation::Zero, Reflection::Flip));
    assert(exists|i: int|
            0 <= i < versions.len() && transform_rel(Transformation(Rotation::Zero, Reflection::Flip), base, (#[trigger] versions[i]).mask@)) by {
        assert(0 <= 4 < 8);
        let i = choose|i: int|
            0 <= i < masks.len() && transform_rel(Transformation::all()[4], base, (#[trigger] masks[i])@);
        assert(versions[i].mask@ == masks[i]@);
        assert(transform_rel(Transformation(Rotation::Zero, Reflection::Flip), base, versions[i].mask@));
    }
    assert(Transformation::all()[5] == Transformation(Rotation::Ninety, Reflection::Flip));
    assert(exists|i: int|
            0 <= i < versions.len() && transform_rel(Transformation(Rotation::Ninety, Reflection::Flip), base, (#[trigger] versions[i]).mask@)) by {
        assert(0 <= 5 < 8);
        let i = choose|i: int|
            0 <= i < masks.len() && transform_rel(Transformation::all()[5], base, (#[trigger] masks[i])@);
        assert(versions[i].mask@ == masks[i]@);
        assert(transform_rel(Transformation(Rotation::Ninety, Reflection::Flip), base, versions[i].mask@));
    }
    assert(Transformation::all()[6] == Transformation(Rotation::OneEighty, Reflection::Flip));
    assert(exists|i: int|
            0 <= i < versions.len() && transform_rel(Transformation(Rotation::OneEighty, Reflection::Flip), base, (#[trigger] versions[i]).mask@)) by {
        assert(0 <= 6 < 8);
        let i = choose|i: int|
            0 <= i < masks.len() && transform_rel(Transformation::all()[6], base, (#[trigger] masks[i])@);
        assert(versions[i].mask@ == masks[i]@);
        assert(transform_rel(Transformation(Rotation::OneEighty, Reflection::Flip), base, versions[i].mask@));
    }
    assert(Transformation::all()[7] == Transformation(Rotation::TwoSeventy, Reflection::Flip));
    assert(exists|i: int|
            0 <= i < versions.len() && transform_rel(Transformation(Rotation::TwoSeventy, Reflection::Flip), base, (#[trigger] versions[i]).mask@)) by {
        assert(0 <= 7 < 8);
        let i = choose|i: int|
            0 <= i < masks.len() && transform_rel(Transformation::all()[7], base, (#[trigger] masks[i])@);
        assert(versions[i].mask@ == masks[i]@);
        assert(transform_rel(Transformation(Rotation::TwoSeventy, Reflection::Flip), base, versions[i].mask@));
    }
}

/// The bookkeeping of the deduplicating transform loop: every
/// collected mask is a well-formed dihedral image of the base, and no
/// two collected masks are equal.
#[verifier::opaque]
pub open spec fn masks_state(masks: Seq<Mask>, base: MaskView) -> bool {
    &&& forall|i: int|
        0 <= i < masks.len() ==> (#[trigger] masks[i]@).wf() && 1 <= masks[i]@.w <= 29 && 1
            <= masks[i]@.rows.len() <= 29
    &&& forall|i: int| 0 <= i < masks.len() ==> is_dihedral_image(base, (#[trigger] masks[i])@)
    &&& forall|i: int, j: int|
        #![trigger masks[i], masks[j]]
        0 <= i < j < masks.len() ==> masks[i]@ != masks[j]@
}

/// A piece in the game: the distinct dihedral transforms of one base
/// polyomino.
pub struct Piece {
    /// The different unique versions of the piece.
    pub versions: Vec<TransformedPiece>,
}

impl Piece {
    /// Every version is well formed, and there is at least one and at
    /// most eight.
    pub open spec fn wf(self) -> bool {
        &&& 1 <= self.versions@.len() <= 8
        &&& forall|i: int| 0 <= i < self.versions@.len() ==> (#[trigger] self.versions@[i]).wf()
    }

    /// Generate the distinct dihedral transforms of a base mask,
    /// deduplicated by identical occupancy pattern.
    #[verifier::rlimit(60)]
    pub fn new(mask: Mask) -> (r: Piece)
        requires
            mask.wf(),
            1 <= mask@.w <= 29,
            1 <= mask@.rows.len() <= 29,
        ensures
            r.wf(),
            piece_generates(r, mask@),
    {
        let transformations = Transformation::iter();
        let mut masks: Vec<Mask> = Vec::new();
        proof {
            reveal(masks_state);
            assert(masks_state(masks@, mask@));
            lemma_covers_empty(masks@, mask@);
        }
        let mut t: usize = 0;
        while t < transformations.len()
            invariant
                t <= 8,
                transformations@ == Transformation::all(),
                mask.wf(),
                1 <= mask@.w <= 29,
                1 <= mask@.rows.len() <= 29,
                masks@.len() <= t,
                t >= 1 ==> masks@.len() >= 1,
                masks_state(masks@, mask@),
                covers_upto(masks@, mask@, t as int),
            decreases transformations@.len() - t,
        {
            let m = transform(transformations[t], &mask);
            let mut seen = false;
            let mut k: usize = 0;
            while k < masks.len()
                invariant
                    k <= masks@.len(),
                    seen == exists|idx: int| 0 <= idx < k && (#[trigger] masks@[idx])@ == m@,
                decreases masks@.len() - k,
            {
                if masks[k].same_as(&m) {
                    proof {
                        assert(masks@[k as int]@ == m@);
                    }
                    seen = true;
                }
                k += 1;
            }
            if !seen {
                let ghost old_masks = masks@;
                masks.push(m);
                proof {
                    reveal(masks_state);
                    assert(transform_rel(Transformation::all()[t as int], mask@, m@));
                    assert(is_dihedral_image(mask@, masks@[old_masks.len() as int]@));
                    assert(masks_state(masks@, mask@));
                    lemma_covers_push(old_masks, masks[old_masks.len() as int], mask@, t as int);
                    assert(masks@ == old_masks.push(masks[old_masks.len() as int]));
                }
            } else {
                proof {
                    let idx = choose|idx: int|
                        0 <= idx < masks@.len() && (#[trigger] masks@[idx])@ == m@;
                    assert(transform_rel(Transformation::all()[t as int], mask@, m@));
                    assert(transform_rel(Transformation::all()[t as int], mask@, masks@[idx]@));
                    lemma_covers_stay(masks@, mask@, t as int, idx);
                }
            }
            t += 1;
        }
        let ghost base_masks = masks@;
        proof {
            reveal(masks_state);
        }
        let mut versions: Vec<TransformedPiece> = Vec::new();
        let mut k: usize = 0;
        while k < masks.len()
            invariant
                k <= masks@.len(),
                masks@ == base_masks,
                1 <= masks@.len() <= 8,
                mask.wf(),
                masks_state(masks@, mask@),
                covers_upto(masks@, mask@, 8),
                forall|i: int|
                    0 <= i < masks@.len() ==> (#[trigger] masks@[i]@).wf() && 1 <= masks@[i]@.w
                        <= 29 && 1 <= masks@[i]@.rows.len() <= 29,
                versions@.len() == k,
                forall|i: int|
                    0 <= i < k ==> (#[trigger] versions@[i]).wf() && versions@[i].mask@
                        == masks@[i]@,
            decreases masks@.len() - k,
        {
            proof {
                reveal(masks_state);
            }
            let m = masks[k].clone();
            versions.push(TransformedPiece::new(m));
            k += 1;
        }
        let r = Piece { versions };
        proof {
            reveal(masks_state);
            reveal(piece_generates);
            lemma_covers_versions(masks@, r.versions@, mask@);
            assert forall|i: int|
                0 <= i < r.versions@.len() implies is_dihedral_image(
                mask@,
                (#[trigger] r.versions@[i]).mask@,
            ) by {
                assert(is_dihedral_image(mask@, masks@[i]@));
            }
            assert forall|i: int, j: int|
                #![trigger r.versions@[i], r.versions@[j]]
                0 <= i < j < r.versions@.len() implies r.versions@[i].mask@ != r.versions@[j].mask@ by {
                assert(masks@[i]@ != masks@[j]@);
            }
        }
        r
    }
}

} // verus!
