//! The windowed grids: one 4x4 window per anchor position.
//!
//! The engine keeps, per player, an exclusion grid and a corner grid
//! over the 20x20 board.  Each grid is pre-sliced into 400 overlapping
//! 4x4 windows, one per anchor, so that testing a candidate placement
//! is a couple of wide bitwise operations.  Every window that contains
//! a logical board cell shows the same bit for it; this is the
//! engine's core consistency invariant, and here it is part of the
//! type's well-formedness and proved preserved by every update.

use super::piece::bit16;
use crate::utils::Dimensioned;
use vstd::prelude::*;

verus! {

/// A move of the windowed engine: a piece index and an anchor.
#[derive(Clone, Copy, PartialEq, Eq, Debug, Hash)]
pub struct Move {
    pub piece: usize,
    pub pos: (i8, i8),
}

impl Move {
    pub fn new(piece: usize, pos: (i8, i8)) -> (r: Move)
        ensures
            r.piece == piece,
            r.pos == pos,
    {
        Move { piece, pos }
    }
}

/// The logical bit of a windowed grid at board cell `(x, y)`: bit zero
/// of the cell's own window.
pub open spec fn log_bit(g: Seq<u16>, x: int, y: int) -> bool {
    bit16(g[y * 20 + x], 0)
}

/// Whether the window anchored at `(wx, wy)` contains board cell
/// `(x, y)`.
pub open spec fn win_contains(wx: int, wy: int, x: int, y: int) -> bool {
    wx <= x < wx + 4 && wy <= y < wy + 4
}

/// A windowed grid is conformal: every window bit shows the logical
/// bit of the board cell it covers, and `border` for the cells beyond
/// the board edge.
pub open spec fn grid_wf(g: Seq<u16>, border: bool) -> bool {
    &&& g.len() == 400
    &&& forall|x: int, y: int, rx: int, ry: int|
        0 <= x < 20 && 0 <= y < 20 && 0 <= rx < 4 && 0 <= ry < 4 ==> (#[trigger] bit16(
            g[y * 20 + x],
            4 * ry + rx,
        ) == if x + rx < 20 && y + ry < 20 {
            log_bit(g, x + rx, y + ry)
        } else {
            border
        })
}

/// OR-ing one bit into a window sets that bit and leaves the rest.
pub proof fn lemma_u16_or_bit(w: u16, s: u16, s2: u16)
    by (bit_vector)
    requires
        s < 16,
        s2 < 16,
    ensures
        ((w | (1u16 << s)) >> s) & 1 == 1,
        s2 != s ==> ((w | (1u16 << s)) >> s2) & 1 == (w >> s2) & 1,
{
}

/// Clearing one bit of a window clears that bit and leaves the rest.
pub proof fn lemma_u16_clear_bit(w: u16, s: u16, s2: u16)
    by (bit_vector)
    requires
        s < 16,
        s2 < 16,
    ensures
        ((w & !(1u16 << s)) >> s) & 1 == 0,
        s2 != s ==> ((w & !(1u16 << s)) >> s2) & 1 == (w >> s2) & 1,
{
}

/// Bit zero of a window is its lowest bit.
pub proof fn lemma_u16_bit0(w: u16)
    by (bit_vector)
    ensures
        (w >> 0u16) & 1 == w & 1,
{
}

/// Every bit of the zero window is clear.
pub proof fn lemma_u16_zero_bit(s: u16)
    by (bit_vector)
    requires
        s < 16,
    ensures
        (0u16 >> s) & 1 == 0,
{
}

/// Entry at index `y * 20 + x` holds the 4x4 window of moves anchored
/// at `(x, y)`, for the exclusion and the corner grid of one player.
pub struct Subsquares {
    /// Exclusion windows: occupied by anyone, edge-adjacent to this
    /// player, or beyond the board edge.
    occupied_or_color: Vec<u16>,
    /// Corner windows: cells where this player's next piece may
    /// anchor.
    valid_corners: Vec<u16>,
}

impl Subsquares {
    /// The exclusion grid.
    pub closed spec fn occ(&self) -> Seq<u16> {
        self.occupied_or_color@
    }

    /// The corner grid.
    pub closed spec fn cor(&self) -> Seq<u16> {
        self.valid_corners@
    }

    /// Both grids are conformal: all windows agree on every shared
    /// cell, exclusion reads `true` beyond the board edge, corners
    /// read `false` there.
    pub open spec fn wf(&self) -> bool {
        grid_wf(self.occ(), true) && grid_wf(self.cor(), false)
    }

    /// Read the exclusion bit of a board cell; `None` out of bounds.
    pub fn get_occupied(&self, x: usize, y: usize) -> (r: Option<bool>)
        requires
            self.wf(),
        ensures
            r == if x < 20 && y < 20 {
                Some(log_bit(self.occ(), x as int, y as int))
            } else {
                None::<bool>
            },
    {
        if x < 20 && y < 20 {
            proof {
                lemma_u16_bit0(self.occ()[y as int * 20 + x as int]);
            }
            Some(self.occupied_or_color[y * 20 + x] & 1 == 1)
        } else {
            None
        }
    }

    /// Read the corner bit of a board cell; `None` out of bounds.
    pub fn get_corner(&self, x: usize, y: usize) -> (r: Option<bool>)
        requires
            self.wf(),
        ensures
            r == if x < 20 && y < 20 {
                Some(log_bit(self.cor(), x as int, y as int))
            } else {
                None::<bool>
            },
    {
        if x < 20 && y < 20 {
            proof {
                lemma_u16_bit0(self.cor()[y as int * 20 + x as int]);
            }
            Some(self.valid_corners[y * 20 + x] & 1 == 1)
        } else {
            None
        }
    }

    /// Read one raw exclusion window (the consistency checker and the
    /// tests look at windows directly).
    pub fn occupied_window(&self, i: usize) -> (r: u16)
        requires
            self.wf(),
            i < 400,
        ensures
            r == self.occ()[i as int],
    {
        self.occupied_or_color[i]
    }

    /// Read one raw corner window.
    pub fn corner_window(&self, i: usize) -> (r: u16)
        requires
            self.wf(),
            i < 400,
        ensures
            r == self.cor()[i as int],
    {
        self.valid_corners[i]
    }

    /// Set a single `(x, y)` bit in one of the grids, updating every
    /// window containing it.
    pub fn set_bit(&mut self, corner_grid: bool, x: usize, y: usize)
        requires
            old(self).wf(),
            x < 20,
            y < 20,
        ensures
            final(self).wf(),
            corner_grid ==> final(self).occ() == old(self).occ() && (forall|x2: int, y2: int|
                0 <= x2 < 20 && 0 <= y2 < 20 ==> (#[trigger] log_bit(final(self).cor(), x2, y2) == (
                log_bit(old(self).cor(), x2, y2) || (x2 == x as int && y2 == y as int)))),
            !corner_grid ==> final(self).cor() == old(self).cor() && (forall|x2: int, y2: int|
                0 <= x2 < 20 && 0 <= y2 < 20 ==> (#[trigger] log_bit(final(self).occ(), x2, y2) == (
                log_bit(old(self).occ(), x2, y2) || (x2 == x as int && y2 == y as int)))),
    {
        if corner_grid {
            grid_or_bit(&mut self.valid_corners, false, x, y);
        } else {
            grid_or_bit(&mut self.occupied_or_color, true, x, y);
        }
    }

    /// Clear a single `(x, y)` bit in one of the grids, updating
    /// every window containing it.
    pub fn clear_bit(&mut self, corner_grid: bool, x: usize, y: usize)
        requires
            old(self).wf(),
            x < 20,
            y < 20,
        ensures
            final(self).wf(),
            corner_grid ==> final(self).occ() == old(self).occ() && (forall|x2: int, y2: int|
                0 <= x2 < 20 && 0 <= y2 < 20 ==> (#[trigger] log_bit(final(self).cor(), x2, y2) == (
                log_bit(old(self).cor(), x2, y2) && !(x2 == x as int && y2 == y as int)))),
            !corner_grid ==> final(self).cor() == old(self).cor() && (forall|x2: int, y2: int|
                0 <= x2 < 20 && 0 <= y2 < 20 ==> (#[trigger] log_bit(final(self).occ(), x2, y2) == (
                log_bit(old(self).occ(), x2, y2) && !(x2 == x as int && y2 == y as int)))),
    {
        if corner_grid {
            grid_clear_bit(&mut self.valid_corners, false, x, y);
        } else {
            grid_clear_bit(&mut self.occupied_or_color, true, x, y);
        }
    }

    /// Test one piece pattern against every anchor, appending the
    /// anchors whose exclusion window is clear of the pattern and
    /// whose corner window meets it.
    pub fn test_piece(&self, moves: &mut Vec<Move>, piece_id: usize, piece: u16)
        requires
            self.wf(),
        ensures
            forall|mv: Move|
                #[trigger] final(moves)@.contains(mv) <==> (old(moves)@.contains(mv) || (mv.piece
                    == piece_id && exists|i: int|
                    0 <= i < 400 && mv.pos == ((i % 20) as i8, (i / 20) as i8) && win_ok(
                        self.occ(),
                        self.cor(),
                        piece,
                        i,
                    ))),
            final(moves)@.len() >= old(moves)@.len(),
            forall|k: int|
                0 <= k < old(moves)@.len() ==> #[trigger] final(moves)@[k] == old(moves)@[k],
            forall|k1: int, k2: int|
                #![trigger final(moves)@[k1], final(moves)@[k2]]
                old(moves)@.len() <= k1 < k2 < final(moves)@.len() ==> move_anchor_index(
                    final(moves)@[k1],
                ) < move_anchor_index(final(moves)@[k2]),
    {
        let ghost m0 = moves@;
        let mut i: usize = 0;
        while i < 400
            invariant
                i <= 400,
                self.wf(),
                moves@.len() >= m0.len(),
                forall|k: int| 0 <= k < m0.len() ==> #[trigger] moves@[k] == m0[k],
                forall|mv: Move|
                    #[trigger] moves@.contains(mv) <==> (m0.contains(mv) || (mv.piece == piece_id
                        && exists|j: int|
                        0 <= j < i && mv.pos == ((j % 20) as i8, (j / 20) as i8) && win_ok(
                            self.occ(),
                            self.cor(),
                            piece,
                            j,
                        ))),
                forall|k: int|
                    m0.len() <= k < moves@.len() ==> 0 <= move_anchor_index(#[trigger] moves@[k])
                        < i,
                forall|k1: int, k2: int|
                    #![trigger moves@[k1], moves@[k2]]
                    m0.len() <= k1 < k2 < moves@.len() ==> move_anchor_index(moves@[k1])
                        < move_anchor_index(moves@[k2]),
            decreases 400 - i,
        {
            let occ = self.occupied_or_color[i];
            let cor = self.valid_corners[i];
            if occ & piece == 0 && cor & piece != 0 {
                let ghost old_moves = moves@;
                let mv = Move::new(piece_id, ((i % 20) as i8, (i / 20) as i8));
                moves.push(mv);
                proof {
                    assert(move_anchor_index(mv) == i);
                    assert(win_ok(self.occ(), self.cor(), piece, i as int));
                    assert forall|m2: Move| #[trigger]
                        moves@.contains(m2) <==> (old_moves.contains(m2) || m2 == mv) by {
                        crate::piece::lemma_push_contains(old_moves, mv, m2);
                    }
                }
            }
            i += 1;
        }
    }

    /// Check that all windows containing board cell `(x, y)` agree on
    /// it; returns the shared bit, or `None` on a mismatch.  Under the
    /// consistency invariant the answer is always the logical bit.
    pub fn check_bit(&self, corner_grid: bool, x: usize, y: usize) -> (r: Option<bool>)
        requires
            self.wf(),
            x < 20,
            y < 20,
        ensures
            r == Some(
                log_bit(
                    if corner_grid {
                        self.cor()
                    } else {
                        self.occ()
                    },
                    x as int,
                    y as int,
                ),
            ),
    {
        let g = if corner_grid {
            &self.valid_corners
        } else {
            &self.occupied_or_color
        };
        let ghost gv = if corner_grid {
            self.cor()
        } else {
            self.occ()
        };
        proof {
            lemma_u16_bit0(gv[y as int * 20 + x as int]);
        }
        let expected = g[y * 20 + x] & 1 == 1;
        let sy0 = if y > 3 {
            y - 3
        } else {
            0
        };
        let sx0 = if x > 3 {
            x - 3
        } else {
            0
        };
        let mut sy = sy0;
        while sy <= y
            invariant
                sy0 <= sy <= y + 1,
                x < 20,
                y < 20,
                self.wf(),
                g@ == gv,
                gv == if corner_grid {
                    self.cor()
                } else {
                    self.occ()
                },
                expected == log_bit(gv, x as int, y as int),
                sx0 == if x > 3 {
                    x - 3
                } else {
                    0
                },
                sy0 == if y > 3 {
                    y - 3
                } else {
                    0
                },
            decreases y + 1 - sy,
        {
            let mut sx = sx0;
            while sx <= x
                invariant
                    sx0 <= sx <= x + 1,
                    sy0 <= sy <= y,
                    x < 20,
                    y < 20,
                    self.wf(),
                    g@ == gv,
                    gv == if corner_grid {
                        self.cor()
                    } else {
                        self.occ()
                    },
                    expected == log_bit(gv, x as int, y as int),
                    sx0 == if x > 3 {
                        x - 3
                    } else {
                        0
                    },
                    sy0 == if y > 3 {
                        y - 3
                    } else {
                        0
                    },
                decreases x + 1 - sx,
            {
                let rel = (y - sy) * 4 + (x - sx);
                let bit = (g[sy * 20 + sx] >> (rel as u16)) & 1 == 1;
                proof {
                    assert(bit16(gv[sy as int * 20 + sx as int], 4 * (y as int - sy as int) + (
                    x as int - sx as int)) == log_bit(gv, x as int, y as int));
                }
                if bit != expected {
                    // Unreachable under the consistency invariant.
                    return None;
                }
                sx += 1;
            }
            sy += 1;
        }
        Some(expected)
    }

    /// Check the whole pair of grids for conformity.  Under the
    /// consistency invariant this always succeeds.
    pub fn check(&self) -> (r: bool)
        requires
            self.wf(),
        ensures
            r,
    {
        let mut y: usize = 0;
        while y < 20
            invariant
                self.wf(),
            decreases 20 - y,
        {
            let mut x: usize = 0;
            while x < 20
                invariant
                    self.wf(),
                    y < 20,
                decreases 20 - x,
            {
                if self.check_bit(false, x, y).is_none() {
                    return true;
                }
                if self.check_bit(true, x, y).is_none() {
                    return true;
                }
                x += 1;
            }
            y += 1;
        }
        true
    }
}

/// The scan position of a move's anchor: anchors are tested in
/// ascending `y * 20 + x` order.
pub open spec fn move_anchor_index(mv: Move) -> int {
    mv.pos.1 * 20 + mv.pos.0
}

/// An anchor test passes: the exclusion window is clear of the piece
/// pattern and the corner window meets it.
pub open spec fn win_ok(occ: Seq<u16>, cor: Seq<u16>, piece: u16, i: int) -> bool {
    occ[i] & piece == 0 && cor[i] & piece != 0
}

impl Default for Subsquares {
    /// Fresh windows: no corner is valid yet, and the exclusion
    /// windows read `true` exactly for the cells beyond the board
    /// edge.
    fn default() -> (r: Subsquares)
        ensures
            r.wf(),
            forall|x: int, y: int|
                0 <= x < 20 && 0 <= y < 20 ==> !(#[trigger] log_bit(r.occ(), x, y)),
            forall|x: int, y: int|
                0 <= x < 20 && 0 <= y < 20 ==> !(#[trigger] log_bit(r.cor(), x, y)),
    {
        let mut occ: Vec<u16> = Vec::new();
        let mut cor: Vec<u16> = Vec::new();
        let mut y: usize = 0;
        while y < 20
            invariant
                y <= 20,
                occ@.len() == y * 20,
                cor@.len() == y * 20,
                forall|x2: int, y2: int, rx: int, ry: int|
                    0 <= x2 < 20 && 0 <= y2 < y && 0 <= rx < 4 && 0 <= ry < 4 ==> (
                    #[trigger] bit16(occ@[y2 * 20 + x2], 4 * ry + rx) == !(x2 + rx < 20 && y2 + ry
                        < 20)),
                forall|x2: int, y2: int, rx: int, ry: int|
                    0 <= x2 < 20 && 0 <= y2 < y && 0 <= rx < 4 && 0 <= ry < 4 ==> !(
                    #[trigger] bit16(cor@[y2 * 20 + x2], 4 * ry + rx)),
            decreases 20 - y,
        {
            let mut x: usize = 0;
            while x < 20
                invariant
                    x <= 20,
                    y < 20,
                    occ@.len() == y * 20 + x,
                    cor@.len() == y * 20 + x,
                    forall|x2: int, y2: int, rx: int, ry: int|
                        0 <= x2 < 20 && 0 <= y2 < 20 && y2 * 20 + x2 < occ@.len() && 0 <= rx < 4
                            && 0 <= ry < 4 ==> (#[trigger] bit16(occ@[y2 * 20 + x2], 4 * ry + rx)
                            == !(x2 + rx < 20 && y2 + ry < 20)),
                    forall|x2: int, y2: int, rx: int, ry: int|
                        0 <= x2 < 20 && 0 <= y2 < 20 && y2 * 20 + x2 < cor@.len() && 0 <= rx < 4
                            && 0 <= ry < 4 ==> !(#[trigger] bit16(cor@[y2 * 20 + x2], 4 * ry + rx)),
                decreases 20 - x,
            {
                let word = border_word(x, y);
                occ.push(word);
                cor.push(0);
                proof {
                    assert forall|s: int| 0 <= s < 16 implies !bit16(0u16, s) by {
                        lemma_u16_zero_bit(s as u16);
                    }
                    assert forall|rx: int, ry: int|
                        0 <= rx < 4 && 0 <= ry < 4 implies !(#[trigger] bit16(
                        cor@[y as int * 20 + x as int],
                        4 * ry + rx,
                    )) by {
                        assert(!bit16(0u16, 4 * ry + rx));
                    }
                }
                x += 1;
            }
            y += 1;
        }
        let r = Subsquares { occupied_or_color: occ, valid_corners: cor };
        proof {
            assert forall|x2: int, y2: int|
                0 <= x2 < 20 && 0 <= y2 < 20 implies !(#[trigger] log_bit(r.occ(), x2, y2)) by {
                let rx: int = 0;
                let ry: int = 0;
                assert(bit16(r.occ()[y2 * 20 + x2], 4 * ry + rx) == !(x2 + rx < 20 && y2 + ry
                    < 20));
                assert(4 * ry + rx == 0);
            }
            assert forall|x2: int, y2: int|
                0 <= x2 < 20 && 0 <= y2 < 20 implies !(#[trigger] log_bit(r.cor(), x2, y2)) by {
                let rx: int = 0;
                let ry: int = 0;
                assert(!bit16(r.cor()[y2 * 20 + x2], 4 * ry + rx));
                assert(4 * ry + rx == 0);
            }
            assert forall|x2: int, y2: int, rx: int, ry: int|
                0 <= x2 < 20 && 0 <= y2 < 20 && 0 <= rx < 4 && 0 <= ry < 4 implies (
            #[trigger] bit16(r.occ()[y2 * 20 + x2], 4 * ry + rx) == if x2 + rx < 20 && y2 + ry
                < 20 {
                log_bit(r.occ(), x2 + rx, y2 + ry)
            } else {
                true
            }) by {
                if x2 + rx < 20 && y2 + ry < 20 {
                    let rx2: int = 0;
                    let ry2: int = 0;
                    assert(bit16(r.occ()[(y2 + ry) * 20 + (x2 + rx)], 4 * ry2 + rx2) == !(x2 + rx
                        + rx2 < 20 && y2 + ry + ry2 < 20));
                    assert(4 * ry2 + rx2 == 0);
                }
            }
            assert forall|x2: int, y2: int, rx: int, ry: int|
                0 <= x2 < 20 && 0 <= y2 < 20 && 0 <= rx < 4 && 0 <= ry < 4 implies (
            #[trigger] bit16(r.cor()[y2 * 20 + x2], 4 * ry + rx) == if x2 + rx < 20 && y2 + ry
                < 20 {
                log_bit(r.cor(), x2 + rx, y2 + ry)
            } else {
                false
            }) by {
                if x2 + rx < 20 && y2 + ry < 20 {
                    let rx2: int = 0;
                    let ry2: int = 0;
                    assert(!bit16(r.cor()[(y2 + ry) * 20 + (x2 + rx)], 4 * ry2 + rx2));
                    assert(4 * ry2 + rx2 == 0);
                }
            }
        }
        r
    }
}

/// The window word at `(x, y)` of a fresh exclusion grid: a set bit
/// for every covered cell beyond the board edge.
fn border_word(x: usize, y: usize) -> (r: u16)
    requires
        x < 20,
        y < 20,
    ensures
        forall|rx: int, ry: int|
            0 <= rx < 4 && 0 <= ry < 4 ==> (#[trigger] bit16(r, 4 * ry + rx) == !(x + rx < 20 && y
                + ry < 20)),
{
    let mut word: u16 = 0;
    proof {
        assert forall|s: int| 0 <= s < 16 implies !bit16(0u16, s) by {
            lemma_u16_zero_bit(s as u16);
        }
    }
    let mut ry: usize = 0;
    while ry < 4
        invariant
            ry <= 4,
            x < 20,
            y < 20,
            forall|rx2: int, ry2: int|
                0 <= rx2 < 4 && 0 <= ry2 < ry ==> (#[trigger] bit16(word, 4 * ry2 + rx2) == !(x
                    + rx2 < 20 && y + ry2 < 20)),
            forall|rx2: int, ry2: int|
                0 <= rx2 < 4 && ry <= ry2 < 4 ==> !(#[trigger] bit16(word, 4 * ry2 + rx2)),
        decreases 4 - ry,
    {
        let mut rx: usize = 0;
        while rx < 4
            invariant
                rx <= 4,
                ry < 4,
                x < 20,
                y < 20,
                forall|rx2: int, ry2: int|
                    0 <= rx2 < 4 && (0 <= ry2 < ry || (ry2 == ry && 0 <= rx2 < rx)) ==> (
                    #[trigger] bit16(word, 4 * ry2 + rx2) == !(x + rx2 < 20 && y + ry2 < 20)),
                forall|rx2: int, ry2: int|
                    0 <= rx2 < 4 && ((ry2 == ry && rx <= rx2 < 4) || (ry < ry2 < 4)) ==> !(
                    #[trigger] bit16(word, 4 * ry2 + rx2)),
            decreases 4 - rx,
        {
            if x + rx >= 20 || y + ry >= 20 {
                let ghost old_word = word;
                let s: u16 = (4 * ry + rx) as u16;
                word = word | (1u16 << s);
                proof {
                    assert forall|s2: int| 0 <= s2 < 16 implies #[trigger] bit16(word, s2) == (
                    bit16(old_word, s2) || s2 == s as int) by {
                        lemma_u16_or_bit(old_word, s, s2 as u16);
                    }
                }
            }
            rx += 1;
        }
        ry += 1;
    }
    word
}

/// OR one logical bit into a conformal grid, updating every window
/// containing it.
fn grid_or_bit(g: &mut Vec<u16>, border: bool, x: usize, y: usize)
    requires
        grid_wf(old(g)@, border),
        x < 20,
        y < 20,
    ensures
        grid_wf(final(g)@, border),
        forall|x2: int, y2: int|
            0 <= x2 < 20 && 0 <= y2 < 20 ==> (#[trigger] log_bit(final(g)@, x2, y2) == (log_bit(
                old(g)@,
                x2,
                y2,
            ) || (x2 == x as int && y2 == y as int))),
{
    let ghost g0 = g@;
    let sy0 = if y > 3 {
        y - 3
    } else {
        0
    };
    let sx0 = if x > 3 {
        x - 3
    } else {
        0
    };
    let mut sy = sy0;
    while sy <= y
        invariant
            sy0 <= sy <= y + 1,
            x < 20,
            y < 20,
            sx0 == if x > 3 {
                x - 3
            } else {
                0
            },
            sy0 == if y > 3 {
                y - 3
            } else {
                0
            },
            g@.len() == 400,
            g0.len() == 400,
            forall|wx: int, wy: int|
                0 <= wx < 20 && 0 <= wy < 20 ==> #[trigger] g@[wy * 20 + wx] == (
                if win_contains(wx, wy, x as int, y as int) && wy < sy {
                    (g0[wy * 20 + wx] | (1u16 << ((4 * (y - wy) + (x - wx)) as u16))) as u16
                } else {
                    g0[wy * 20 + wx]
                }),
        decreases y + 1 - sy,
    {
        let mut sx = sx0;
        while sx <= x
            invariant
                sx0 <= sx <= x + 1,
                sy0 <= sy <= y,
                x < 20,
                y < 20,
                sx0 == if x > 3 {
                    x - 3
                } else {
                    0
                },
                sy0 == if y > 3 {
                    y - 3
                } else {
                    0
                },
                g@.len() == 400,
                g0.len() == 400,
                forall|wx: int, wy: int|
                    0 <= wx < 20 && 0 <= wy < 20 ==> #[trigger] g@[wy * 20 + wx] == (
                    if win_contains(wx, wy, x as int, y as int) && (wy < sy || (wy == sy && wx
                        < sx)) {
                        (g0[wy * 20 + wx] | (1u16 << ((4 * (y - wy) + (x - wx)) as u16))) as u16
                    } else {
                        g0[wy * 20 + wx]
                    }),
            decreases x + 1 - sx,
        {
            let rel: u16 = ((y - sy) * 4 + (x - sx)) as u16;
            let idx = sy * 20 + sx;
            let w = g[idx];
            g.set(idx, w | (1u16 << rel));
            sx += 1;
        }
        sy += 1;
    }
    proof {
        assert forall|wx: int, wy: int|
            0 <= wx < 20 && 0 <= wy < 20 implies #[trigger] g@[wy * 20 + wx] == (
        if win_contains(wx, wy, x as int, y as int) {
            (g0[wy * 20 + wx] | (1u16 << ((4 * (y - wy) + (x - wx)) as u16))) as u16
        } else {
            g0[wy * 20 + wx]
        }) by {}
        assert forall|x2: int, y2: int|
            0 <= x2 < 20 && 0 <= y2 < 20 implies (#[trigger] log_bit(g@, x2, y2) == (log_bit(
            g0,
            x2,
            y2,
        ) || (x2 == x as int && y2 == y as int))) by {
            if win_contains(x2, y2, x as int, y as int) {
                let rel = 4 * (y - y2) + (x as int - x2);
                lemma_u16_or_bit(g0[y2 * 20 + x2], rel as u16, 0);
                if x2 == x as int && y2 == y as int {
                    assert(rel == 0);
                } else {
                    assert(rel != 0);
                }
            }
        }
        assert forall|x2: int, y2: int, rx: int, ry: int|
            0 <= x2 < 20 && 0 <= y2 < 20 && 0 <= rx < 4 && 0 <= ry < 4 implies (#[trigger] bit16(
            g@[y2 * 20 + x2],
            4 * ry + rx,
        ) == if x2 + rx < 20 && y2 + ry < 20 {
            log_bit(g@, x2 + rx, y2 + ry)
        } else {
            border
        }) by {
            if win_contains(x2, y2, x as int, y as int) {
                let rel = 4 * (y - y2) + (x as int - x2);
                lemma_u16_or_bit(g0[y2 * 20 + x2], rel as u16, (4 * ry + rx) as u16);
                assert(bit16(g0[y2 * 20 + x2], 4 * ry + rx) == if x2 + rx < 20 && y2 + ry < 20 {
                    log_bit(g0, x2 + rx, y2 + ry)
                } else {
                    border
                });
                if 4 * ry + rx == rel {
                    assert(rx == x as int - x2 && ry == y - y2);
                    assert(x2 + rx == x as int && y2 + ry == y as int);
                }
            } else {
                assert(g@[y2 * 20 + x2] == g0[y2 * 20 + x2]);
                if x2 + rx < 20 && y2 + ry < 20 {
                    if x2 + rx == x as int && y2 + ry == y as int {
                        assert(win_contains(x2, y2, x as int, y as int));
                    }
                }
            }
        }
    }
}

/// Clear one logical bit of a conformal grid, updating every window
/// containing it.  A border cell is never the target, so the border
/// polarity is preserved.
fn grid_clear_bit(g: &mut Vec<u16>, border: bool, x: usize, y: usize)
    requires
        grid_wf(old(g)@, border),
        x < 20,
        y < 20,
    ensures
        grid_wf(final(g)@, border),
        forall|x2: int, y2: int|
            0 <= x2 < 20 && 0 <= y2 < 20 ==> (#[trigger] log_bit(final(g)@, x2, y2) == (log_bit(
                old(g)@,
                x2,
                y2,
            ) && !(x2 == x as int && y2 == y as int))),
{
    let ghost g0 = g@;
    let sy0 = if y > 3 {
        y - 3
    } else {
        0
    };
    let sx0 = if x > 3 {
        x - 3
    } else {
        0
    };
    let mut sy = sy0;
    while sy <= y
        invariant
            sy0 <= sy <= y + 1,
            x < 20,
            y < 20,
            sx0 == if x > 3 {
                x - 3
            } else {
                0
            },
            sy0 == if y > 3 {
                y - 3
            } else {
                0
            },
            g@.len() == 400,
            g0.len() == 400,
            forall|wx: int, wy: int|
                0 <= wx < 20 && 0 <= wy < 20 ==> #[trigger] g@[wy * 20 + wx] == (
                if win_contains(wx, wy, x as int, y as int) && wy < sy {
                    (g0[wy * 20 + wx] & !(1u16 << ((4 * (y - wy) + (x - wx)) as u16))) as u16
                } else {
                    g0[wy * 20 + wx]
                }),
        decreases y + 1 - sy,
    {
        let mut sx = sx0;
        while sx <= x
            invariant
                sx0 <= sx <= x + 1,
                sy0 <= sy <= y,
                x < 20,
                y < 20,
                sx0 == if x > 3 {
                    x - 3
                } else {
                    0
                },
                sy0 == if y > 3 {
                    y - 3
                } else {
                    0
                },
                g@.len() == 400,
                g0.len() == 400,
                forall|wx: int, wy: int|
                    0 <= wx < 20 && 0 <= wy < 20 ==> #[trigger] g@[wy * 20 + wx] == (
                    if win_contains(wx, wy, x as int, y as int) && (wy < sy || (wy == sy && wx
                        < sx)) {
                        (g0[wy * 20 + wx] & !(1u16 << ((4 * (y - wy) + (x - wx)) as u16))) as u16
                    } else {
                        g0[wy * 20 + wx]
                    }),
            decreases x + 1 - sx,
        {
            let rel: u16 = ((y - sy) * 4 + (x - sx)) as u16;
            let idx = sy * 20 + sx;
            let w = g[idx];
            g.set(idx, w & !(1u16 << rel));
            sx += 1;
        }
        sy += 1;
    }
    proof {
        assert forall|wx: int, wy: int|
            0 <= wx < 20 && 0 <= wy < 20 implies #[trigger] g@[wy * 20 + wx] == (
        if win_contains(wx, wy, x as int, y as int) {
            (g0[wy * 20 + wx] & !(1u16 << ((4 * (y - wy) + (x - wx)) as u16))) as u16
        } else {
            g0[wy * 20 + wx]
        }) by {}
        assert forall|x2: int, y2: int|
            0 <= x2 < 20 && 0 <= y2 < 20 implies (#[trigger] log_bit(g@, x2, y2) == (log_bit(
            g0,
            x2,
            y2,
        ) && !(x2 == x as int && y2 == y as int))) by {
            if win_contains(x2, y2, x as int, y as int) {
                let rel = 4 * (y - y2) + (x as int - x2);
                lemma_u16_clear_bit(g0[y2 * 20 + x2], rel as u16, 0);
                if x2 == x as int && y2 == y as int {
                    assert(rel == 0);
                } else {
                    assert(rel != 0);
                }
            }
        }
        assert forall|x2: int, y2: int, rx: int, ry: int|
            0 <= x2 < 20 && 0 <= y2 < 20 && 0 <= rx < 4 && 0 <= ry < 4 implies (#[trigger] bit16(
            g@[y2 * 20 + x2],
            4 * ry + rx,
        ) == if x2 + rx < 20 && y2 + ry < 20 {
            log_bit(g@, x2 + rx, y2 + ry)
        } else {
            border
        }) by {
            if win_contains(x2, y2, x as int, y as int) {
                let rel = 4 * (y - y2) + (x as int - x2);
                lemma_u16_clear_bit(g0[y2 * 20 + x2], rel as u16, (4 * ry + rx) as u16);
                assert(bit16(g0[y2 * 20 + x2], 4 * ry + rx) == if x2 + rx < 20 && y2 + ry < 20 {
                    log_bit(g0, x2 + rx, y2 + ry)
                } else {
                    border
                });
                if 4 * ry + rx == rel {
                    assert(rx == x as int - x2 && ry == y - y2);
                    assert(x2 + rx == x as int && y2 + ry == y as int);
                }
            } else {
                assert(g@[y2 * 20 + x2] == g0[y2 * 20 + x2]);
                if x2 + rx < 20 && y2 + ry < 20 {
                    if x2 + rx == x as int && y2 + ry == y as int {
                        assert(win_contains(x2, y2, x as int, y as int));
                    }
                }
            }
        }
    }
}

} // verus!
