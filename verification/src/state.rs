//! The general game state: board, per-player corner sets and
//! inventories, move enumeration and placement.
//!
//! The board holds one nibble per cell.  For each player the state
//! tracks, per diagonal direction, the cells where that player's next
//! piece may anchor, and which base pieces the player still holds.  The
//! piece catalog is built once and passed to every game by shared
//! reference; it is never mutated.

use crate::mask::{
    lemma_zero_nibble, low_mask, nibble_of, overlap_count, overlap_start, view_or, views_disjoint,
    Mask, MaskView,
};
use crate::piece::{
    cellz, corner_dx, corner_dy, lemma_push_contains, piece_generates, Piece, TransformedPiece,
};
use crate::utils::{Dimensioned, PieceID, PieceTransformID, Player};
use vstd::prelude::*;

verus! {

/// A move: a piece transform, anchored with its bounding-box top-left
/// cell at a board position.
#[derive(Clone, Copy, PartialEq, Eq, Debug, Hash)]
pub struct Move {
    pub piece: PieceTransformID,
    pub pos: (i8, i8),
}

impl Move {
    pub fn new(piece: PieceTransformID, pos: (i8, i8)) -> (r: Move)
        ensures
            r.piece == piece,
            r.pos == pos,
    {
        Move { piece, pos }
    }
}

/// The mathematical model of a [`State`]: the board grid, the corner
/// cells per player and diagonal direction, and the per-player
/// inventories.  The (immutable, shared) piece catalog is not part of
/// the mutable state.
#[verifier::ext_equal]
pub ghost struct StateView {
    pub board: MaskView,
    pub corners: Seq<Seq<Seq<(i8, i8)>>>,
    pub avail: Seq<Seq<bool>>,
}

/// The index of the diagonal direction opposite to `d`.
pub open spec fn opposite_dir(d: int) -> int {
    3 - d
}

/// Rows of a base piece shifted into a player's color, confined to the
/// width.
pub proof fn lemma_recolor_fits(row: u128, t: u128, c: u128)
    by (bit_vector)
    requires
        3 <= t <= 124,
        c <= 3,
        row >> ((t - 3) as u128) == 0,
    ensures
        (row << c) >> t == 0,
        row >> t == 0,
{
}

/// The base-piece rows of the catalog are confined to their widths,
/// with three bits to spare for recoloring.
pub proof fn lemma_catalog_rows_fit()
    by (bit_vector)
    ensures
        0x1u128 >> 1 == 0,
        0x11u128 >> 5 == 0,
        0x01u128 >> 5 == 0,
        0x111u128 >> 9 == 0,
        0x001u128 >> 9 == 0,
        0x011u128 >> 9 == 0,
        0x110u128 >> 9 == 0,
        0x010u128 >> 9 == 0,
        0x101u128 >> 9 == 0,
        0x100u128 >> 9 == 0,
        0x1111u128 >> 13 == 0,
        0x1000u128 >> 13 == 0,
        0x0111u128 >> 13 == 0,
        0x1100u128 >> 13 == 0,
        0x0100u128 >> 13 == 0,
        0x11111u128 >> 17 == 0,
{
}

/// The canonical occupancy of base piece `i` of the catalog, drawn
/// in the first player's color.
pub open spec fn base_mask(i: int) -> MaskView {
    if i == 0 {
        MaskView { w: 1, rows: seq![0x1u128] }
    } else if i == 1 {
        MaskView { w: 2, rows: seq![0x11u128] }
    } else if i == 2 {
        MaskView { w: 2, rows: seq![0x11u128, 0x01u128] }
    } else if i == 3 {
        MaskView { w: 3, rows: seq![0x111u128] }
    } else if i == 4 {
        MaskView { w: 4, rows: seq![0x1111u128] }
    } else if i == 5 {
        MaskView { w: 3, rows: seq![0x111u128, 0x001u128] }
    } else if i == 6 {
        MaskView { w: 3, rows: seq![0x110u128, 0x011u128] }
    } else if i == 7 {
        MaskView { w: 2, rows: seq![0x11u128, 0x11u128] }
    } else if i == 8 {
        MaskView { w: 3, rows: seq![0x111u128, 0x010u128] }
    } else if i == 9 {
        MaskView { w: 3, rows: seq![0x011u128, 0x110u128, 0x010u128] }
    } else if i == 10 {
        MaskView { w: 5, rows: seq![0x11111u128] }
    } else if i == 11 {
        MaskView { w: 4, rows: seq![0x1111u128, 0x1000u128] }
    } else if i == 12 {
        MaskView { w: 4, rows: seq![0x0111u128, 0x1100u128] }
    } else if i == 13 {
        MaskView { w: 3, rows: seq![0x111u128, 0x110u128] }
    } else if i == 14 {
        MaskView { w: 3, rows: seq![0x111u128, 0x010u128, 0x010u128] }
    } else if i == 15 {
        MaskView { w: 3, rows: seq![0x111u128, 0x101u128] }
    } else if i == 16 {
        MaskView { w: 3, rows: seq![0x111u128, 0x100u128, 0x100u128] }
    } else if i == 17 {
        MaskView { w: 3, rows: seq![0x001u128, 0x011u128, 0x110u128] }
    } else if i == 18 {
        MaskView { w: 3, rows: seq![0x010u128, 0x111u128, 0x010u128] }
    } else if i == 19 {
        MaskView { w: 4, rows: seq![0x1111u128, 0x0100u128] }
    } else {
        MaskView { w: 3, rows: seq![0x110u128, 0x010u128, 0x011u128] }
    }
}

/// A mask view recolored for the player with color bit `c`: every
/// row shifted left by `c`, moving each nibble-1 cell to the nibble
/// `1 << c`.
pub open spec fn recolored(m: MaskView, c: int) -> MaskView {
    MaskView { w: m.w, rows: Seq::new(m.rows.len(), |j: int| (m.rows[j] << (c as u128)) as u128) }
}

/// A base piece mask recolored for one player: every row is shifted
/// left by the player's color bit.
fn make_block(width: i8, rows: Vec<u128>, c: u32) -> (r: Mask)
    requires
        1 <= width <= 29,
        1 <= rows@.len() <= 29,
        c <= 3,
        forall|j: int| 0 <= j < rows@.len() ==> (#[trigger] rows@[j]) >> ((4 * width - 3) as u128)
            == 0,
    ensures
        r.wf(),
        r@ == recolored(MaskView { w: width as int, rows: rows@ }, c as int),
{
    let mut shifted: Vec<u128> = Vec::new();
    let mut j: usize = 0;
    while j < rows.len()
        invariant
            j <= rows@.len(),
            1 <= width <= 29,
            c <= 3,
            forall|i: int| 0 <= i < rows@.len() ==> (#[trigger] rows@[i]) >> ((4 * width - 3)
                as u128) == 0,
            shifted@.len() == j,
            forall|i: int| 0 <= i < j ==> (#[trigger] shifted@[i]) >> ((4 * width) as u128) == 0,
            forall|i: int| 0 <= i < j ==> (#[trigger] shifted@[i]) == (rows@[i] << (c as u128)) as u128,
        decreases rows@.len() - j,
    {
        let row = rows[j];
        proof {
            lemma_recolor_fits(row, (4 * width) as u128, c as u128);
        }
        shifted.push(row << c);
        proof {
            assert(shifted@[j as int] == (rows@[j as int] << (c as u128)) as u128);
        }
        j += 1;
    }
    let r = Mask::new(width, shifted);
    proof {
        assert(r@.rows =~= recolored(MaskView { w: width as int, rows: rows@ }, c as int).rows);
        assert(r@ =~= recolored(MaskView { w: width as int, rows: rows@ }, c as int));
    }
    r
}


/// The catalog of the 21 base pieces, recolored for the player with
/// color bit `c`, each expanded into its distinct dihedral transforms.
#[verifier::rlimit(100)]
#[verifier::spinoff_prover]
fn player_catalog(c: u32) -> (r: Vec<Piece>)
    requires
        c <= 3,
    ensures
        r@.len() == 21,
        forall|i: int|
            0 <= i < 21 ==> piece_generates(#[trigger] r@[i], recolored(base_mask(i), c as int)),
{
    proof {
        lemma_catalog_rows_fit();
    }
    let mut v: Vec<Piece> = Vec::new();
    let m0 = make_block(1, vec![0x1], c);
    let ghost vm0 = m0@;
    let p0 = Piece::new(m0);
    proof {
        assert(vm0 =~= recolored(base_mask(0), c as int));
        assert(piece_generates(p0, recolored(base_mask(0), c as int)));
    }
    v.push(p0);
    let m1 = make_block(2, vec![0x11], c);
    let ghost vm1 = m1@;
    let p1 = Piece::new(m1);
    proof {
        assert(vm1 =~= recolored(base_mask(1), c as int));
        assert(piece_generates(p1, recolored(base_mask(1), c as int)));
    }
    v.push(p1);
    let m2 = make_block(2, vec![0x11, 0x01], c);
    let ghost vm2 = m2@;
    let p2 = Piece::new(m2);
    proof {
        assert(vm2 =~= recolored(base_mask(2), c as int));
        assert(piece_generates(p2, recolored(base_mask(2), c as int)));
    }
    v.push(p2);
    let m3 = make_block(3, vec![0x111], c);
    let ghost vm3 = m3@;
    let p3 = Piece::new(m3);
    proof {
        assert(vm3 =~= recolored(base_mask(3), c as int));
        assert(piece_generates(p3, recolored(base_mask(3), c as int)));
    }
    v.push(p3);
    let m4 = make_block(4, vec![0x1111], c);
    let ghost vm4 = m4@;
    let p4 = Piece::new(m4);
    proof {
        assert(vm4 =~= recolored(base_mask(4), c as int));
        assert(piece_generates(p4, recolored(base_mask(4), c as int)));
    }
    v.push(p4);
    let m5 = make_block(3, vec![0x111, 0x001], c);
    let ghost vm5 = m5@;
    let p5 = Piece::new(m5);
    proof {
        assert(vm5 =~= recolored(base_mask(5), c as int));
        assert(piece_generates(p5, recolored(base_mask(5), c as int)));
    }
    v.push(p5);
    let m6 = make_block(3, vec![0x110, 0x011], c);
    let ghost vm6 = m6@;
    let p6 = Piece::new(m6);
    proof {
        assert(vm6 =~= recolored(base_mask(6), c as int));
        assert(piece_generates(p6, recolored(base_mask(6), c as int)));
    }
    v.push(p6);
    let m7 = make_block(2, vec![0x11, 0x11], c);
    let ghost vm7 = m7@;
    let p7 = Piece::new(m7);
    proof {
        assert(vm7 =~= recolored(base_mask(7), c as int));
        assert(piece_generates(p7, recolored(base_mask(7), c as int)));
    }
    v.push(p7);
    let m8 = make_block(3, vec![0x111, 0x010], c);
    let ghost vm8 = m8@;
    let p8 = Piece::new(m8);
    proof {
        assert(vm8 =~= recolored(base_mask(8), c as int));
        assert(piece_generates(p8, recolored(base_mask(8), c as int)));
    }
    v.push(p8);
    let m9 = make_block(3, vec![0x011, 0x110, 0x010], c);
    let ghost vm9 = m9@;
    let p9 = Piece::new(m9);
    proof {
        assert(vm9 =~= recolored(base_mask(9), c as int));
        assert(piece_generates(p9, recolored(base_mask(9), c as int)));
    }
    v.push(p9);
    let m10 = make_block(5, vec![0x11111], c);
    let ghost vm10 = m10@;
    let p10 = Piece::new(m10);
    proof {
        assert(vm10 =~= recolored(base_mask(10), c as int));
        assert(piece_generates(p10, recolored(base_mask(10), c as int)));
    }
    v.push(p10);
    let m11 = make_block(4, vec![0x1111, 0x1000], c);
    let ghost vm11 = m11@;
    let p11 = Piece::new(m11);
    proof {
        assert(vm11 =~= recolored(base_mask(11), c as int));
        assert(piece_generates(p11, recolored(base_mask(11), c as int)));
    }
    v.push(p11);
    let m12 = make_block(4, vec![0x0111, 0x1100], c);
    let ghost vm12 = m12@;
    let p12 = Piece::new(m12);
    proof {
        assert(vm12 =~= recolored(base_mask(12), c as int));
        assert(piece_generates(p12, recolored(base_mask(12), c as int)));
    }
    v.push(p12);
    let m13 = make_block(3, vec![0x111, 0x110], c);
    let ghost vm13 = m13@;
    let p13 = Piece::new(m13);
    proof {
        assert(vm13 =~= recolored(base_mask(13), c as int));
        assert(piece_generates(p13, recolored(base_mask(13), c as int)));
    }
    v.push(p13);
    let m14 = make_block(3, vec![0x111, 0x010, 0x010], c);
    let ghost vm14 = m14@;
    let p14 = Piece::new(m14);
    proof {
        assert(vm14 =~= recolored(base_mask(14), c as int));
        assert(piece_generates(p14, recolored(base_mask(14), c as int)));
    }
    v.push(p14);
    let m15 = make_block(3, vec![0x111, 0x101], c);
    let ghost vm15 = m15@;
    let p15 = Piece::new(m15);
    proof {
        assert(vm15 =~= recolored(base_mask(15), c as int));
        assert(piece_generates(p15, recolored(base_mask(15), c as int)));
    }
    v.push(p15);
    let m16 = make_block(3, vec![0x111, 0x100, 0x100], c);
    let ghost vm16 = m16@;
    let p16 = Piece::new(m16);
    proof {
        assert(vm16 =~= recolored(base_mask(16), c as int));
        assert(piece_generates(p16, recolored(base_mask(16), c as int)));
    }
    v.push(p16);
    let m17 = make_block(3, vec![0x001, 0x011, 0x110], c);
    let ghost vm17 = m17@;
    let p17 = Piece::new(m17);
    proof {
        assert(vm17 =~= recolored(base_mask(17), c as int));
        assert(piece_generates(p17, recolored(base_mask(17), c as int)));
    }
    v.push(p17);
    let m18 = make_block(3, vec![0x010, 0x111, 0x010], c);
    let ghost vm18 = m18@;
    let p18 = Piece::new(m18);
    proof {
        assert(vm18 =~= recolored(base_mask(18), c as int));
        assert(piece_generates(p18, recolored(base_mask(18), c as int)));
    }
    v.push(p18);
    let m19 = make_block(4, vec![0x1111, 0x0100], c);
    let ghost vm19 = m19@;
    let p19 = Piece::new(m19);
    proof {
        assert(vm19 =~= recolored(base_mask(19), c as int));
        assert(piece_generates(p19, recolored(base_mask(19), c as int)));
    }
    v.push(p19);
    let m20 = make_block(3, vec![0x110, 0x010, 0x011], c);
    let ghost vm20 = m20@;
    let p20 = Piece::new(m20);
    proof {
        assert(vm20 =~= recolored(base_mask(20), c as int));
        assert(piece_generates(p20, recolored(base_mask(20), c as int)));
    }
    v.push(p20);
    proof {
        assert(v@[0] == p0);
        assert(v@[1] == p1);
        assert(v@[2] == p2);
        assert(v@[3] == p3);
        assert(v@[4] == p4);
        assert(v@[5] == p5);
        assert(v@[6] == p6);
        assert(v@[7] == p7);
        assert(v@[8] == p8);
        assert(v@[9] == p9);
        assert(v@[10] == p10);
        assert(v@[11] == p11);
        assert(v@[12] == p12);
        assert(v@[13] == p13);
        assert(v@[14] == p14);
        assert(v@[15] == p15);
        assert(v@[16] == p16);
        assert(v@[17] == p17);
        assert(v@[18] == p18);
        assert(v@[19] == p19);
        assert(v@[20] == p20);
        assert forall|i: int|
            0 <= i < 21 implies piece_generates(#[trigger] v@[i], recolored(base_mask(i), c as int)) by {}
    }
    v
}

/// The catalog of the standard 21 base pieces, one copy per player in
/// that player's color.  Built once at startup and passed to every
/// game by shared reference, never mutated.
pub fn standard_pieces() -> (r: [Vec<Piece>; 4])
    ensures
        forall|p: int| 0 <= p < 4 ==> (#[trigger] r@[p])@.len() == 21,
        forall|p: int, i: int|
            0 <= p < 4 && 0 <= i < r@[p]@.len() ==> (#[trigger] r@[p]@[i]).wf(),
        forall|p: int, i: int|
            0 <= p < 4 && 0 <= i < 21 ==> piece_generates(
                #[trigger] r@[p]@[i],
                recolored(base_mask(i), p),
            ),
{
    let c0 = player_catalog(0);
    let c1 = player_catalog(1);
    let c2 = player_catalog(2);
    let c3 = player_catalog(3);
    let r = [c0, c1, c2, c3];
    proof {
        reveal(crate::piece::piece_generates);
        assert(r@[0] == c0 && r@[1] == c1 && r@[2] == c2 && r@[3] == c3);
        assert forall|p: int, i: int|
            0 <= p < 4 && 0 <= i < 21 implies piece_generates(
            #[trigger] r@[p]@[i],
            recolored(base_mask(i), p),
        ) by {}
        assert forall|p: int, i: int|
            0 <= p < 4 && 0 <= i < r@[p]@.len() implies (#[trigger] r@[p]@[i]).wf() by {
            assert(piece_generates(r@[p]@[i], recolored(base_mask(i), p)));
        }
    }
    r
}


/// One anchored pairing: the board corner with index `bi` of `player`
/// in diagonal direction `d`, matched with piece corner `ci` of the
/// opposite direction, puts the piece's top-left cell at `(x, y)`.
pub open spec fn pair_yields(
    v: StateView,
    tp: TransformedPiece,
    player: int,
    d: int,
    bi: int,
    ci: int,
    x: int,
    y: int,
) -> bool {
    &&& 0 <= d < 4
    &&& 0 <= bi < v.corners[player][d].len()
    &&& 0 <= ci < tp.corners[opposite_dir(d)]@.len()
    &&& x == v.corners[player][d][bi].0 - tp.corners[opposite_dir(d)]@[ci].0
    &&& y == v.corners[player][d][bi].1 - tp.corners[opposite_dir(d)]@[ci].1
}

/// Some corner pairing of `player` anchors `tp` at `(x, y)`.
pub open spec fn anchored(v: StateView, tp: TransformedPiece, player: int, x: int, y: int) -> bool {
    exists|d: int, bi: int, ci: int| pair_yields(v, tp, player, d, bi, ci, x, y)
}

/// The piece transform `tp`, laid with its top-left cell at `(x, y)`,
/// lies fully on the board and its neighbor mask (the piece plus its
/// orthogonal exclusion halo in the player's color) avoids every set
/// bit of the board.
pub open spec fn placement_ok(v: StateView, tp: TransformedPiece, x: int, y: int) -> bool {
    &&& 0 <= x
    &&& 0 <= y
    &&& x + tp.mask@.w <= v.board.w
    &&& y + tp.mask@.rows.len() <= v.board.rows.len()
    &&& views_disjoint(v.board, tp.neighbor_mask@, x - 1, y - 1)
}

/// `mv` names a version of piece `pid` and is anchored and placeable.
pub open spec fn candidate_of_piece(
    v: StateView,
    cat: Seq<Seq<Piece>>,
    player: int,
    pid: int,
    mv: Move,
) -> bool {
    let vid = mv.piece.version as int;
    &&& mv.piece.piece.piece == pid
    &&& 0 <= vid < cat[player][pid].versions@.len()
    &&& anchored(v, cat[player][pid].versions@[vid], player, mv.pos.0 as int, mv.pos.1 as int)
    &&& placement_ok(v, cat[player][pid].versions@[vid], mv.pos.0 as int, mv.pos.1 as int)
}

/// A legal move of `player`: the piece is still in the player's
/// inventory, one of the player's corner cells pairs with a piece
/// corner of the opposite direction to anchor it, the piece lies fully
/// on the board, and it avoids every bit of the player's exclusion
/// pattern.
pub open spec fn is_candidate(v: StateView, cat: Seq<Seq<Piece>>, player: int, mv: Move) -> bool {
    let pid = mv.piece.piece.piece as int;
    &&& 0 <= player < 4
    &&& 0 <= pid < cat[player].len()
    &&& v.avail[player][pid] == true
    &&& candidate_of_piece(v, cat, player, pid, mv)
}

/// No two positions of the sequence hold the same element.
pub open spec fn distinct_seq<T>(s: Seq<T>) -> bool {
    forall|i: int, j: int| #![trigger s[i], s[j]] 0 <= i < j < s.len() ==> s[i] != s[j]
}

/// Concatenating two duplicate-free sequences with no element in
/// common is duplicate-free.
pub proof fn lemma_distinct_add<T>(a: Seq<T>, b: Seq<T>)
    requires
        distinct_seq(a),
        distinct_seq(b),
        forall|x: T| a.contains(x) ==> !b.contains(x),
    ensures
        distinct_seq(a + b),
{
    assert forall|i: int, j: int|
        #![trigger (a + b)[i], (a + b)[j]]
        0 <= i < j < (a + b).len() implies (a + b)[i] != (a + b)[j] by {
        if i < a.len() && j >= a.len() {
            assert((a + b)[i] == a[i] && (a + b)[j] == b[j - a.len()]);
            assert(a.contains(a[i]));
            if a[i] == b[j - a.len()] {
                assert(b.contains(a[i]));
            }
        } else if i < a.len() {
            assert((a + b)[i] == a[i] && (a + b)[j] == a[j]);
        } else {
            assert((a + b)[i] == b[i - a.len()] && (a + b)[j] == b[j - a.len()]);
        }
    }
}

/// A duplicate-free sequence stays duplicate-free when an element it
/// does not contain is appended.
pub proof fn lemma_distinct_push<T>(s: Seq<T>, x: T)
    requires
        distinct_seq(s),
        !s.contains(x),
    ensures
        distinct_seq(s.push(x)),
{
    assert forall|i: int, j: int|
        #![trigger s.push(x)[i], s.push(x)[j]]
        0 <= i < j < s.push(x).len() implies s.push(x)[i] != s.push(x)[j] by {
        if j == s.len() {
            assert(s.push(x)[i] == s[i] && s.push(x)[j] == x);
            assert(s.contains(s[i]));
        } else {
            assert(s.push(x)[i] == s[i] && s.push(x)[j] == s[j]);
        }
    }
}

/// Concatenating sequences contains exactly what either part contains.
pub proof fn lemma_add_contains<T>(s1: Seq<T>, s2: Seq<T>, q: T)
    ensures
        (s1 + s2).contains(q) <==> (s1.contains(q) || s2.contains(q)),
{
    if (s1 + s2).contains(q) {
        let i = choose|i: int| 0 <= i < (s1 + s2).len() && (s1 + s2)[i] == q;
        if i < s1.len() {
            assert(s1[i] == q);
        } else {
            assert(s2[i - s1.len()] == q);
        }
    }
    if s1.contains(q) {
        let i = choose|i: int| 0 <= i < s1.len() && s1[i] == q;
        assert((s1 + s2)[i] == q);
    }
    if s2.contains(q) {
        let i = choose|i: int| 0 <= i < s2.len() && s2[i] == q;
        assert((s1 + s2)[s1.len() + i] == q);
    }
}

/// The game state.
pub struct State<'game> {
    /// The board: one nibble per cell.
    board: Mask,
    /// Corner-anchor cells for every player, separated by the diagonal
    /// direction in which the new piece would extend.
    corners: Vec<Vec<Vec<(i8, i8)>>>,
    /// Which base pieces each player still holds.
    player_pieces: Vec<Vec<bool>>,
    /// The shared, immutable piece catalog, one entry per player.
    pieces: &'game [Vec<Piece>; 4],
}

impl<'game> View for State<'game> {
    type V = StateView;

    closed spec fn view(&self) -> StateView {
        StateView {
            board: self.board@,
            corners: Seq::new(4, |p: int| Seq::new(4, |d: int| self.corners@[p]@[d]@)),
            avail: Seq::new(4, |p: int| self.player_pieces@[p]@),
        }
    }
}

/// Structural well-formedness of a state view against a catalog: the
/// board is a well-formed grid, every corner cell lies on the board,
/// and the inventories line up with the catalog.
pub open spec fn view_wf(v: StateView, cat: Seq<Seq<Piece>>) -> bool {
    &&& v.board.wf()
    &&& 2 <= v.board.w <= 31
    &&& 2 <= v.board.rows.len() <= 125
    &&& v.corners.len() == 4
    &&& forall|p: int| 0 <= p < 4 ==> (#[trigger] v.corners[p]).len() == 4
    &&& forall|p: int, d: int, i: int|
        0 <= p < 4 && 0 <= d < 4 && 0 <= i < v.corners[p][d].len() ==> v.board.in_bounds(
            (#[trigger] v.corners[p][d][i]).0 as int,
            v.corners[p][d][i].1 as int,
        )
    &&& v.avail.len() == 4
    &&& cat.len() == 4
    &&& forall|p: int| 0 <= p < 4 ==> (#[trigger] v.avail[p]).len() == cat[p].len()
    &&& forall|p: int, i: int|
        0 <= p < 4 && 0 <= i < cat[p].len() ==> (#[trigger] cat[p][i]).wf()
}

impl<'game> State<'game> {
    /// The catalog this state plays from.
    pub closed spec fn spec_catalog(&self) -> Seq<Seq<Piece>> {
        Seq::new(4, |p: int| self.pieces@[p]@)
    }

    /// The containers behind the view have the modelled shape.
    pub closed spec fn shape_wf(&self) -> bool {
        &&& self.corners@.len() == 4
        &&& forall|p: int| 0 <= p < 4 ==> (#[trigger] self.corners@[p])@.len() == 4
        &&& self.player_pieces@.len() == 4
    }

    /// The state is well formed against its catalog.
    pub open spec fn wf(&self) -> bool {
        view_wf(self@, self.spec_catalog()) && self.shape_wf()
    }

    /// A fresh game: empty board, full inventories, and exactly one
    /// corner bit per player, at that player's assigned starting corner
    /// of the board.
    pub fn new(w: i8, h: i8, pieces: &'game [Vec<Piece>; 4]) -> (r: State<'game>)
        requires
            2 <= w <= 31,
            2 <= h <= 125,
            forall|p: int, i: int|
                0 <= p < 4 && 0 <= i < pieces@[p]@.len() ==> (#[trigger] pieces@[p]@[i]).wf(),
        ensures
            r.wf(),
            r.spec_catalog() == Seq::new(4, |p: int| pieces@[p]@),
            r@.board.w == w as int,
            r@.board.rows.len() == h as int,
            r@.board.is_empty(),
            r@.corners[0][0] == seq![(0i8, 0i8)],
            r@.corners[1][1] == seq![((w - 1) as i8, 0i8)],
            r@.corners[2][3] == seq![((w - 1) as i8, (h - 1) as i8)],
            r@.corners[3][2] == seq![(0i8, (h - 1) as i8)],
            forall|p: int, d: int|
                0 <= p < 4 && 0 <= d < 4 && !((p == 0 && d == 0) || (p == 1 && d == 1) || (p == 2
                    && d == 3) || (p == 3 && d == 2)) ==> (#[trigger] r@.corners[p][d]).len() == 0,
            forall|p: int, i: int|
                0 <= p < 4 && 0 <= i < pieces@[p]@.len() ==> #[trigger] r@.avail[p][i] == true,
            r@ == init_view(w as int, h as int, Seq::new(4, |p: int| pieces@[p]@)),
    {
        let zr = crate::piece::zero_rows(h as usize);
        proof {
            assert forall|j: int| 0 <= j < zr@.len() implies (#[trigger] zr@[j]) >> ((4 * w)
                as u128) == 0 by {
                lemma_zero_nibble((4 * w) as u128);
            }
        }
        let board = Mask::new(w, zr);

        // First player starts at the (0, 0) corner, extending towards
        // positive x and y; the others take the remaining board
        // corners.
        let mut c00: Vec<(i8, i8)> = Vec::new();
        c00.push((0, 0));
        let mut c11: Vec<(i8, i8)> = Vec::new();
        c11.push((w - 1, 0));
        let mut c23: Vec<(i8, i8)> = Vec::new();
        c23.push((w - 1, h - 1));
        let mut c32: Vec<(i8, i8)> = Vec::new();
        c32.push((0, h - 1));
        let mut row0: Vec<Vec<(i8, i8)>> = Vec::new();
        row0.push(c00);
        row0.push(Vec::new());
        row0.push(Vec::new());
        row0.push(Vec::new());
        let mut row1: Vec<Vec<(i8, i8)>> = Vec::new();
        row1.push(Vec::new());
        row1.push(c11);
        row1.push(Vec::new());
        row1.push(Vec::new());
        let mut row2: Vec<Vec<(i8, i8)>> = Vec::new();
        row2.push(Vec::new());
        row2.push(Vec::new());
        row2.push(Vec::new());
        row2.push(c23);
        let mut row3: Vec<Vec<(i8, i8)>> = Vec::new();
        row3.push(Vec::new());
        row3.push(Vec::new());
        row3.push(c32);
        row3.push(Vec::new());
        let mut corners: Vec<Vec<Vec<(i8, i8)>>> = Vec::new();
        corners.push(row0);
        corners.push(row1);
        corners.push(row2);
        corners.push(row3);

        let mut player_pieces: Vec<Vec<bool>> = Vec::new();
        player_pieces.push(full_inventory(pieces[0].len()));
        player_pieces.push(full_inventory(pieces[1].len()));
        player_pieces.push(full_inventory(pieces[2].len()));
        player_pieces.push(full_inventory(pieces[3].len()));

        let r = State { board, corners, player_pieces, pieces };
        proof {
            assert(r@.corners[0][0] =~= seq![(0i8, 0i8)]);
            assert(r@.corners[1][1] =~= seq![((w - 1) as i8, 0i8)]);
            assert(r@.corners[2][3] =~= seq![((w - 1) as i8, (h - 1) as i8)]);
            assert(r@.corners[3][2] =~= seq![(0i8, (h - 1) as i8)]);
            assert(r.spec_catalog() =~= Seq::new(4, |p: int| pieces@[p]@));
            let cat = Seq::new(4, |p: int| pieces@[p]@);
            let iv = init_view(w as int, h as int, cat);
            assert(r@.board.rows =~= iv.board.rows);
            assert(r@.board =~= iv.board);
            assert forall|p: int, d: int| 0 <= p < 4 && 0 <= d < 4 implies r@.corners[p][d]
                =~= iv.corners[p][d] by {}
            assert(r@.corners =~~= iv.corners);
            assert forall|p: int| 0 <= p < 4 implies r@.avail[p] =~= iv.avail[p] by {}
            assert(r@.avail =~~= iv.avail);
            assert(r@ =~~= iv);
        }
        r
    }

    /// Get the width of the board.
    pub fn w(&self) -> (r: i8)
        ensures
            r as int == self@.board.w,
    {
        self.board.w()
    }

    /// Get the height of the board.
    pub fn h(&self) -> (r: i8)
        requires
            self.wf(),
        ensures
            r as int == self@.board.rows.len(),
    {
        self.board.h()
    }

    /// The nibble of the board cell at `(x, y)`, out of bounds reading
    /// as empty.
    pub fn cell(&self, x: i8, y: i8) -> (r: u128)
        requires
            self.wf(),
        ensures
            r == cellz(self@.board, x as int, y as int),
    {
        match self.board.get_i8(x, y) {
            Some(v) => v,
            None => 0,
        }
    }

    /// Whether `(x, y)` is a corner-anchor cell of `player` in any
    /// diagonal direction.
    pub fn is_corner(&self, player: &Player, x: i8, y: i8) -> (r: bool)
        requires
            self.wf(),
        ensures
            r == exists|d: int, i: int|
                0 <= d < 4 && 0 <= i < self@.corners[player.spec_id()][d].len()
                    && (#[trigger] self@.corners[player.spec_id()][d][i]) == (x, y),
    {
        let p = player.id();
        let mut d: usize = 0;
        while d < 4
            invariant
                d <= 4,
                p == player.spec_id(),
                self.wf(),
                forall|d2: int, k: int|
                    0 <= d2 < d && 0 <= k < self@.corners[p as int][d2].len() ==> (
                #[trigger] self@.corners[p as int][d2][k]) != (x, y),
            decreases 4 - d,
        {
            let list = &self.corners[p][d];
            let mut i: usize = 0;
            while i < list.len()
                invariant
                    i <= list@.len(),
                    d < 4,
                    p == player.spec_id(),
                    self.wf(),
                    list@ == self@.corners[p as int][d as int],
                    forall|k: int| 0 <= k < i ==> (#[trigger] list@[k]) != (x, y),
                decreases list@.len() - i,
            {
                if list[i].0 == x && list[i].1 == y {
                    proof {
                        assert(self@.corners[p as int][d as int][i as int] == (x, y));
                    }
                    return true;
                }
                i += 1;
            }
            proof {
                assert forall|d2: int, k: int|
                    0 <= d2 < d + 1 && 0 <= k < self@.corners[p as int][d2].len() implies (
                #[trigger] self@.corners[p as int][d2][k]) != (x, y) by {
                    if d2 == d {
                        assert(list@[k] != (x, y));
                    }
                }
            }
            d += 1;
        }
        false
    }

    /// Whether `player` still holds base piece `pid`.
    pub fn has_piece(&self, player: &Player, pid: usize) -> (r: bool)
        requires
            self.wf(),
            pid < self.spec_catalog()[player.spec_id()].len(),
        ensures
            r == self@.avail[player.spec_id()][pid as int],
    {
        let p = player.id();
        proof {
            assert(self@.avail[p as int] == self.player_pieces@[p as int]@);
            assert(self.spec_catalog()[p as int] == self.pieces@[p as int]@);
        }
        self.player_pieces[p][pid]
    }

    /// The number of board cells occupied by each player.
    pub fn scores(&self) -> (r: [u32; 4])
        requires
            self.wf(),
        ensures
            forall|p: int| 0 <= p < 4 ==> r@[p] == color_count(
                self@.board,
                (1u128 << p) as u128,
                self@.board.rows.len() as int,
            ),
    {
        let s0 = self.score_of(0b0001);
        let s1 = self.score_of(0b0010);
        let s2 = self.score_of(0b0100);
        let s3 = self.score_of(0b1000);
        proof {
            assert((1u128 << 0) == 0b0001 && (1u128 << 1) == 0b0010 && (1u128 << 2) == 0b0100 && (
            1u128 << 3) == 0b1000) by (bit_vector);
        }
        [s0, s1, s2, s3]
    }

    /// The number of board cells holding exactly the nibble `c`.
    fn score_of(&self, c: u128) -> (r: u32)
        requires
            self.wf(),
        ensures
            r == color_count(self@.board, c, self@.board.rows.len() as int),
    {
        let w = self.board.w();
        let h = self.board.h();
        let mut total: u32 = 0;
        let mut y: i8 = 0;
        while y < h
            invariant
                0 <= y <= h,
                w as int == self@.board.w,
                h as int == self@.board.rows.len(),
                self.wf(),
                total == color_count(self@.board, c, y as int),
                total <= y as int * 31,
            decreases h - y,
        {
            let mut x: i8 = 0;
            while x < w
                invariant
                    0 <= y < h,
                    0 <= x <= w,
                    w as int == self@.board.w,
                    h as int == self@.board.rows.len(),
                    self.wf(),
                    total == color_count(self@.board, c, y as int) + row_color_count(
                        self@.board.rows[y as int],
                        x as int,
                        c,
                    ),
                    total <= y as int * 31 + x as int,
                decreases w - x,
            {
                proof {
                    lemma_row_color_count_bound(self@.board.rows[y as int], x as int + 1, c);
                    lemma_color_count_bound(self@.board, c, y as int);
                }
                if self.board.get(x, y).unwrap_or(0) == c {
                    total = total + 1;
                }
                x += 1;
            }
            y += 1;
        }
        total
    }
}

/// The anchor position produced by one corner pairing.
pub open spec fn pair_anchor(
    v: StateView,
    tp: TransformedPiece,
    player: int,
    d: int,
    bi: int,
    ci: int,
) -> (int, int) {
    (
        v.corners[player][d][bi].0 - tp.corners[opposite_dir(d)]@[ci].0,
        v.corners[player][d][bi].1 - tp.corners[opposite_dir(d)]@[ci].1,
    )
}

/// The pairing is in range and its anchor admits a legal placement.
pub open spec fn pair_ok(
    v: StateView,
    tp: TransformedPiece,
    player: int,
    d: int,
    bi: int,
    ci: int,
) -> bool {
    &&& 0 <= d < 4
    &&& 0 <= bi < v.corners[player][d].len()
    &&& 0 <= ci < tp.corners[opposite_dir(d)]@.len()
    &&& placement_ok(v, tp, pair_anchor(v, tp, player, d, bi, ci).0, pair_anchor(
        v,
        tp,
        player,
        d,
        bi,
        ci,
    ).1)
}

impl<'game> State<'game> {
    /// Every anchor at which `player` may legally place the transform
    /// `tp`: derived from the player's corner cells paired with the
    /// piece corners of the opposite direction, kept when the piece
    /// lies on the board and avoids the player's exclusion pattern.
    fn anchors_for_version(&self, player: usize, tp: &TransformedPiece) -> (r: Vec<(i8, i8)>)
        requires
            self.wf(),
            player < 4,
            tp.wf(),
        ensures
            forall|a: (i8, i8)|
                #[trigger] r@.contains(a) <==> (anchored(self@, *tp, player as int, a.0 as int, a.1 as int)
                    && placement_ok(self@, *tp, a.0 as int, a.1 as int)),
            distinct_seq(r@),
    {
        let mut r: Vec<(i8, i8)> = Vec::new();
        let bw = self.board.w();
        let bh = self.board.h();
        let pw = tp.mask.w();
        let ph = tp.mask.h();
        let mut d: usize = 0;
        while d < 4
            invariant
                d <= 4,
                player < 4,
                self.wf(),
                tp.wf(),
                bw as int == self@.board.w,
                bh as int == self@.board.rows.len(),
                pw as int == tp.mask@.w,
                ph as int == tp.mask@.rows.len(),
                distinct_seq(r@),
                forall|a: (i8, i8)|
                    #[trigger] r@.contains(a) ==> (anchored(self@, *tp, player as int, a.0 as int, a.1 as int)
                        && placement_ok(self@, *tp, a.0 as int, a.1 as int)),
                forall|d2: int, b2: int, c2: int|
                    d2 < d && #[trigger] pair_ok(self@, *tp, player as int, d2, b2, c2)
                        ==> r@.contains(
                        (
                            pair_anchor(self@, *tp, player as int, d2, b2, c2).0 as i8,
                            pair_anchor(self@, *tp, player as int, d2, b2, c2).1 as i8,
                        ),
                    ),
            decreases 4 - d,
        {
            let blist = &self.corners[player][d];
            let plist = &tp.corners[3 - d];
            let mut bi: usize = 0;
            while bi < blist.len()
                invariant
                    bi <= blist@.len(),
                    d < 4,
                    player < 4,
                    self.wf(),
                    tp.wf(),
                    bw as int == self@.board.w,
                    bh as int == self@.board.rows.len(),
                    pw as int == tp.mask@.w,
                    ph as int == tp.mask@.rows.len(),
                    blist@ == self@.corners[player as int][d as int],
                    plist@ == tp.corners[opposite_dir(d as int)]@,
                    distinct_seq(r@),
                    forall|a: (i8, i8)|
                        #[trigger] r@.contains(a) ==> (anchored(self@, *tp, player as int, a.0 as int, a.1 as int)
                            && placement_ok(self@, *tp, a.0 as int, a.1 as int)),
                    forall|d2: int, b2: int, c2: int|
                        (d2 < d || (d2 == d && b2 < bi)) && #[trigger] pair_ok(
                            self@,
                            *tp,
                            player as int,
                            d2,
                            b2,
                            c2,
                        ) ==> r@.contains(
                            (
                                pair_anchor(self@, *tp, player as int, d2, b2, c2).0 as i8,
                                pair_anchor(self@, *tp, player as int, d2, b2, c2).1 as i8,
                            ),
                        ),
                decreases blist@.len() - bi,
            {
                let bc = blist[bi];
                let mut ci: usize = 0;
                while ci < plist.len()
                    invariant
                        ci <= plist@.len(),
                        bi < blist@.len(),
                        d < 4,
                        player < 4,
                        self.wf(),
                        tp.wf(),
                        bw as int == self@.board.w,
                        bh as int == self@.board.rows.len(),
                        pw as int == tp.mask@.w,
                        ph as int == tp.mask@.rows.len(),
                        blist@ == self@.corners[player as int][d as int],
                        plist@ == tp.corners[opposite_dir(d as int)]@,
                        bc == blist@[bi as int],
                        distinct_seq(r@),
                        forall|a: (i8, i8)|
                            #[trigger] r@.contains(a) ==> (anchored(self@, *tp, player as int, a.0 as int, a.1 as int)
                                && placement_ok(self@, *tp, a.0 as int, a.1 as int)),
                        forall|d2: int, b2: int, c2: int|
                            (d2 < d || (d2 == d && (b2 < bi || (b2 == bi && c2 < ci))))
                                && #[trigger] pair_ok(self@, *tp, player as int, d2, b2, c2)
                                ==> r@.contains(
                                (
                                    pair_anchor(self@, *tp, player as int, d2, b2, c2).0 as i8,
                                    pair_anchor(self@, *tp, player as int, d2, b2, c2).1 as i8,
                                ),
                            ),
                    decreases plist@.len() - ci,
                {
                    let pc = plist[ci];
                    proof {
                        assert(plist@.contains(plist@[ci as int]));
                        assert(self@.board.in_bounds(bc.0 as int, bc.1 as int));
                    }
                    let cx = bc.0 - pc.0;
                    let cy = bc.1 - pc.1;
                    let fits = cx >= 0 && cy >= 0 && (cx as i32) + (pw as i32) <= (bw as i32) && (cy as i32)
                        + (ph as i32) <= (bh as i32);
                    let ok = fits && self.board.no_overlap(&tp.neighbor_mask, (cx - 1, cy - 1));
                    proof {
                        assert(pair_anchor(self@, *tp, player as int, d as int, bi as int, ci as int)
                            == (cx as int, cy as int));
                        assert(ok == placement_ok(self@, *tp, cx as int, cy as int));
                    }
                    if ok {
                        let mut dup = false;
                        let mut ri: usize = 0;
                        while ri < r.len()
                            invariant
                                ri <= r@.len(),
                                dup == exists|k2: int|
                                    0 <= k2 < ri && (#[trigger] r@[k2]) == (cx, cy),
                            decreases r@.len() - ri,
                        {
                            if r[ri].0 == cx && r[ri].1 == cy {
                                proof {
                                    assert(r@[ri as int] == (cx, cy));
                                }
                                dup = true;
                            }
                            ri += 1;
                        }
                        proof {
                            assert(dup == r@.contains((cx, cy)));
                            assert(pair_yields(
                                self@,
                                *tp,
                                player as int,
                                d as int,
                                bi as int,
                                ci as int,
                                cx as int,
                                cy as int,
                            ));
                            assert(anchored(self@, *tp, player as int, cx as int, cy as int));
                        }
                        if !dup {
                            let ghost old_r = r@;
                            r.push((cx, cy));
                            proof {
                                lemma_distinct_push(old_r, (cx, cy));
                                assert forall|a: (i8, i8)| #[trigger]
                                    r@.contains(a) <==> (old_r.contains(a) || a == (cx, cy)) by {
                                    lemma_push_contains(old_r, (cx, cy), a);
                                }
                            }
                        }
                    }
                    ci += 1;
                }
                bi += 1;
            }
            d += 1;
        }
        proof {
            assert forall|a: (i8, i8)|
                anchored(self@, *tp, player as int, a.0 as int, a.1 as int) && placement_ok(
                    self@,
                    *tp,
                    a.0 as int,
                    a.1 as int,
                ) implies #[trigger] r@.contains(a) by {
                let (d2, b2, c2) = choose|d2: int, b2: int, c2: int|
                    pair_yields(self@, *tp, player as int, d2, b2, c2, a.0 as int, a.1 as int);
                assert(pair_ok(self@, *tp, player as int, d2, b2, c2));
                assert(pair_anchor(self@, *tp, player as int, d2, b2, c2) == (
                    a.0 as int,
                    a.1 as int,
                ));
            }
        }
        r
    }

    /// Every legal move of `player` that plays the base piece `piece`.
    pub fn get_moves_for_piece(&self, player: &Player, piece: PieceID) -> (r: Vec<Move>)
        requires
            self.wf(),
            piece.piece < self.spec_catalog()[player.spec_id()].len(),
        ensures
            forall|mv: Move|
                #[trigger] r@.contains(mv) <==> candidate_of_piece(
                    self@,
                    self.spec_catalog(),
                    player.spec_id(),
                    piece.piece as int,
                    mv,
                ),
            distinct_seq(r@),
    {
        let p = player.id();
        let pid = piece.id();
        proof {
            assert(self.spec_catalog()[p as int] == self.pieces@[p as int]@);
        }
        let versions = &self.pieces[p][pid].versions;
        let mut r: Vec<Move> = Vec::new();
        let mut vid: usize = 0;
        while vid < versions.len()
            invariant
                vid <= versions@.len(),
                p == player.spec_id(),
                pid == piece.piece,
                self.wf(),
                pid < self.spec_catalog()[p as int].len(),
                versions@ == self.spec_catalog()[p as int][pid as int].versions@,
                forall|i: int| 0 <= i < versions@.len() ==> (#[trigger] versions@[i]).wf(),
                forall|mv: Move|
                    #[trigger] r@.contains(mv) <==> (candidate_of_piece(
                        self@,
                        self.spec_catalog(),
                        p as int,
                        pid as int,
                        mv,
                    ) && mv.piece.version < vid),
                distinct_seq(r@),
            decreases versions@.len() - vid,
        {
            let tp = &versions[vid];
            let anchors = self.anchors_for_version(p, tp);
            let tid = PieceTransformID::new(&piece, vid);
            let mut ai: usize = 0;
            while ai < anchors.len()
                invariant
                    ai <= anchors@.len(),
                    vid < versions@.len(),
                    p == player.spec_id(),
                    pid == piece.piece,
                    tid.piece == piece,
                    tid.version == vid,
                    self.wf(),
                    pid < self.spec_catalog()[p as int].len(),
                    versions@ == self.spec_catalog()[p as int][pid as int].versions@,
                    tp == &versions@[vid as int],
                    forall|a: (i8, i8)|
                        #[trigger] anchors@.contains(a) <==> (anchored(
                            self@,
                            versions@[vid as int],
                            p as int,
                            a.0 as int,
                            a.1 as int,
                        ) && placement_ok(self@, versions@[vid as int], a.0 as int, a.1 as int)),
                    forall|mv: Move|
                        #[trigger] r@.contains(mv) <==> (candidate_of_piece(
                            self@,
                            self.spec_catalog(),
                            p as int,
                            pid as int,
                            mv,
                        ) && (mv.piece.version < vid || (mv.piece.version == vid
                            && exists|k: int| 0 <= k < ai && #[trigger] anchors@[k] == mv.pos))),
                    distinct_seq(anchors@),
                    distinct_seq(r@),
                decreases anchors@.len() - ai,
            {
                let a = anchors[ai];
                let ghost old_r = r@;
                proof {
                    let newmv = Move { piece: tid, pos: a };
                    if old_r.contains(newmv) {
                        let k = choose|k: int| 0 <= k < ai && #[trigger] anchors@[k] == newmv.pos;
                        assert(anchors@[k] == anchors@[ai as int]);
                        assert(false);
                    }
                }
                r.push(Move::new(tid, a));
                proof {
                    lemma_distinct_push(old_r, Move { piece: tid, pos: a });
                    let newmv = Move { piece: tid, pos: a };
                    assert(anchors@.contains(anchors@[ai as int]));
                    assert forall|mv: Move| #[trigger]
                        r@.contains(mv) <==> (old_r.contains(mv) || mv == newmv) by {
                        lemma_push_contains(old_r, newmv, mv);
                    }
                    assert forall|mv: Move| #[trigger] r@.contains(mv) implies (candidate_of_piece(
                        self@,
                        self.spec_catalog(),
                        p as int,
                        pid as int,
                        mv,
                    ) && (mv.piece.version < vid || (mv.piece.version == vid
                        && exists|k: int| 0 <= k < ai + 1 && #[trigger] anchors@[k] == mv.pos))) by {
                        if mv == newmv {
                            assert(anchors@[ai as int] == mv.pos);
                        }
                    }
                }
                ai += 1;
            }
            proof {
                assert forall|mv: Move|
                    candidate_of_piece(self@, self.spec_catalog(), p as int, pid as int, mv)
                        && mv.piece.version < vid + 1 implies #[trigger] r@.contains(mv) by {
                    if mv.piece.version == vid {
                        assert(anchored(
                            self@,
                            versions@[vid as int],
                            p as int,
                            mv.pos.0 as int,
                            mv.pos.1 as int,
                        ));
                        assert(anchors@.contains(mv.pos));
                        let k = choose|k: int| 0 <= k < anchors@.len() && anchors@[k] == mv.pos;
                        assert(mv.piece == tid);
                    }
                }
            }
            vid += 1;
        }
        r
    }

    /// Get the possible moves for a player: exactly the legal
    /// placements of every piece the player still holds.
    pub fn get_moves(&self, player: &Player) -> (r: Vec<Move>)
        requires
            self.wf(),
        ensures
            forall|mv: Move|
                #[trigger] r@.contains(mv) <==> is_candidate(
                    self@,
                    self.spec_catalog(),
                    player.spec_id(),
                    mv,
                ),
            distinct_seq(r@),
    {
        let p = player.id();
        proof {
            assert(self.spec_catalog()[p as int] == self.pieces@[p as int]@);
            assert(self@.avail[p as int] == self.player_pieces@[p as int]@);
        }
        let n = self.pieces[p].len();
        let mut r: Vec<Move> = Vec::new();
        let mut pid: usize = 0;
        while pid < n
            invariant
                pid <= n,
                p == player.spec_id(),
                self.wf(),
                n == self.spec_catalog()[p as int].len(),
                forall|mv: Move|
                    #[trigger] r@.contains(mv) <==> (is_candidate(
                        self@,
                        self.spec_catalog(),
                        p as int,
                        mv,
                    ) && mv.piece.piece.piece < pid),
                distinct_seq(r@),
            decreases n - pid,
        {
            proof {
                assert(self@.avail[p as int] == self.player_pieces@[p as int]@);
                assert(self.spec_catalog()[p as int] == self.pieces@[p as int]@);
            }
            if self.player_pieces[p][pid] {
                let mut mvs = self.get_moves_for_piece(player, PieceID::from_id(pid));
                let ghost old_r = r@;
                let ghost old_mvs = mvs@;
                proof {
                    assert forall|x: Move| old_r.contains(x) implies !old_mvs.contains(x) by {}
                    lemma_distinct_add(old_r, old_mvs);
                }
                r.append(&mut mvs);
                proof {
                    assert forall|mv: Move| #[trigger]
                        r@.contains(mv) <==> (old_r.contains(mv) || old_mvs.contains(mv)) by {
                        lemma_add_contains(old_r, old_mvs, mv);
                    }
                }
            }
            pid += 1;
        }
        r
    }
}

/// The neighbor-mask value that a placement of `tp` at `(x, y)` writes
/// over board cell `c` (zero where the halo does not reach).
pub open spec fn nb_at(tp: TransformedPiece, x: int, y: int, c: (i8, i8)) -> u128 {
    cellz(tp.neighbor_mask@, c.0 - x + 1, c.1 - y + 1)
}

/// Keep a corner cell of the placing player: the placement writes
/// nothing over it.
pub open spec fn own_keep_pred(tp: TransformedPiece, x: int, y: int) -> spec_fn((i8, i8)) -> bool {
    |c: (i8, i8)| nb_at(tp, x, y, c) == 0
}

/// Keep a corner cell of another player: the placed piece itself does
/// not cover it.
pub open spec fn other_keep_pred(tp: TransformedPiece, x: int, y: int) -> spec_fn(
    (i8, i8),
) -> bool {
    |c: (i8, i8)| nb_at(tp, x, y, c) != 0xF
}

/// The board position reached by stepping diagonally in direction `d`
/// from a piece corner cell placed at `(x, y)`.
pub open spec fn cand_fn(d: int, x: int, y: int) -> spec_fn((i8, i8)) -> (int, int) {
    |pc: (i8, i8)| (x + pc.0 + corner_dx(d), y + pc.1 + corner_dy(d))
}

/// A new corner candidate survives: it is on the board and the
/// player's check pattern (the candidate cell plus its orthogonal
/// halo in the player's color) avoids every bit of the updated board.
pub open spec fn new_corner_pred(w: int, h: int, board2: MaskView, cmv: MaskView) -> spec_fn(
    (int, int),
) -> bool {
    |c: (int, int)| 0 <= c.0 < w && 0 <= c.1 < h && views_disjoint(board2, cmv, c.0 - 1, c.1 - 1)
}

/// Narrow an in-bounds board position back to cell coordinates.
pub open spec fn narrow_fn() -> spec_fn((int, int)) -> (i8, i8) {
    |c: (int, int)| (c.0 as i8, c.1 as i8)
}

/// The corner candidates that a placement of `tp` at `(x, y)` adds for
/// the placing player in direction `d`, in catalog order.
pub open spec fn added_corners_view(
    tp: TransformedPiece,
    d: int,
    x: int,
    y: int,
    w: int,
    h: int,
    board2: MaskView,
    cmv: MaskView,
) -> Seq<(i8, i8)> {
    tp.corners[d]@.map_values(cand_fn(d, x, y)).filter(new_corner_pred(w, h, board2, cmv))
        .map_values(narrow_fn())
}

/// The 3x3 plus-shaped check pattern of a player: the center cell as
/// fully occupied, the four orthogonal neighbors in the player's
/// color.
pub open spec fn check_mask_view(p: int) -> MaskView {
    MaskView {
        w: 3,
        rows: seq![
            ((1u128 << (p as u128)) << 4) as u128,
            (((1u128 << (p as u128)) << 8) | 0xF0 | (1u128 << (p as u128))) as u128,
            ((1u128 << (p as u128)) << 4) as u128,
        ],
    }
}

/// The rows of the four check patterns, written out.
proof fn lemma_check_mask_rows()
    by (bit_vector)
    ensures
        0x010u128 >> 12 == 0,
        0x1f1u128 >> 12 == 0,
        0x020u128 >> 12 == 0,
        0x2f2u128 >> 12 == 0,
        0x040u128 >> 12 == 0,
        0x4f4u128 >> 12 == 0,
        0x080u128 >> 12 == 0,
        0x8f8u128 >> 12 == 0,
        ((1u128 << 0u128) << 4) == 0x010,
        (((1u128 << 0u128) << 8) | 0xF0 | (1u128 << 0u128)) == 0x1f1,
        ((1u128 << 1u128) << 4) == 0x020,
        (((1u128 << 1u128) << 8) | 0xF0 | (1u128 << 1u128)) == 0x2f2,
        ((1u128 << 2u128) << 4) == 0x040,
        (((1u128 << 2u128) << 8) | 0xF0 | (1u128 << 2u128)) == 0x4f4,
        ((1u128 << 3u128) << 4) == 0x080,
        (((1u128 << 3u128) << 8) | 0xF0 | (1u128 << 3u128)) == 0x8f8,
{
}

/// The check pattern of a player as a mask.
fn check_mask(player: &Player) -> (r: Mask)
    ensures
        r.wf(),
        r@ == check_mask_view(player.spec_id()),
        r@.rows.len() == 3,
{
    proof {
        lemma_check_mask_rows();
    }
    let r = match player {
        Player::Player1 => Mask::new(3, vec![0x010, 0x1f1, 0x010]),
        Player::Player2 => Mask::new(3, vec![0x020, 0x2f2, 0x020]),
        Player::Player3 => Mask::new(3, vec![0x040, 0x4f4, 0x040]),
        Player::Player4 => Mask::new(3, vec![0x080, 0x8f8, 0x080]),
    };
    proof {
        assert(r@.rows =~= check_mask_view(player.spec_id()).rows);
        assert(r@ =~= check_mask_view(player.spec_id()));
    }
    r
}

/// The state after `player` plays `mv`: the piece's own pattern is
/// OR-ed into the board; the placing player loses every corner cell
/// the piece or its halo covers and gains the surviving diagonal
/// candidates of the placed piece; every other player loses exactly
/// the corner cells the piece itself covers; and the piece leaves the
/// player's inventory.
pub open spec fn place_view(v: StateView, cat: Seq<Seq<Piece>>, player: int, mv: Move) -> StateView {
    let pid = mv.piece.piece.piece as int;
    let vid = mv.piece.version as int;
    let tp = cat[player][pid].versions@[vid];
    let x = mv.pos.0 as int;
    let y = mv.pos.1 as int;
    let board2 = view_or(v.board, tp.mask@, x, y);
    StateView {
        board: board2,
        corners: Seq::new(
            4,
            |q: int|
                Seq::new(
                    4,
                    |d: int|
                        if q == player {
                            v.corners[q][d].filter(own_keep_pred(tp, x, y)) + added_corners_view(
                                tp,
                                d,
                                x,
                                y,
                                v.board.w,
                                v.board.rows.len() as int,
                                board2,
                                check_mask_view(player),
                            )
                        } else {
                            v.corners[q][d].filter(other_keep_pred(tp, x, y))
                        },
                ),
        ),
        avail: v.avail.update(player, v.avail[player].update(pid, false)),
    }
}

/// Taking one more element appends that element.
proof fn lemma_take_push<A>(s: Seq<A>, k: int)
    requires
        0 <= k < s.len(),
    ensures
        s.take(k + 1) == s.take(k).push(s[k]),
{
    assert(s.take(k + 1) =~= s.take(k).push(s[k]));
}

/// Mapping distributes over appending one element.
proof fn lemma_map_push<A, B>(s: Seq<A>, f: spec_fn(A) -> B, x: A)
    ensures
        s.push(x).map_values(f) == s.map_values(f).push(f(x)),
{
    assert(s.push(x).map_values(f) =~= s.map_values(f).push(f(x)));
}

/// Filtering distributes over appending one element.
proof fn lemma_filter_push<A>(s: Seq<A>, pred: spec_fn(A) -> bool, x: A)
    ensures
        s.push(x).filter(pred) == if pred(x) {
            s.filter(pred).push(x)
        } else {
            s.filter(pred)
        },
{
    reveal(Seq::filter);
    assert(s.push(x).drop_last() =~= s);
    assert(s.push(x).last() == x);
}

/// What the filter keeps, the sequence contained.
proof fn lemma_filter_sub<A>(s: Seq<A>, pred: spec_fn(A) -> bool, q: A)
    ensures
        s.filter(pred).contains(q) ==> s.contains(q),
    decreases s.len(),
{
    reveal(Seq::filter);
    if s.len() > 0 {
        lemma_filter_sub(s.drop_last(), pred, q);
        if s.filter(pred).contains(q) {
            if pred(s.last()) && q == s.last() {
                assert(s[s.len() - 1] == q);
            } else {
                assert(s.drop_last().filter(pred).contains(q));
                let i = choose|i: int|
                    0 <= i < s.drop_last().len() && s.drop_last()[i] == q;
                assert(s[i] == q);
            }
        }
    }
}

/// The inventory vector with one flag cleared.
fn updated_bools(v: &Vec<bool>, i: usize) -> (r: Vec<bool>)
    requires
        i < v@.len(),
    ensures
        r@ == v@.update(i as int, false),
{
    let mut r: Vec<bool> = Vec::new();
    let mut j: usize = 0;
    while j < v.len()
        invariant
            j <= v@.len(),
            i < v@.len(),
            r@.len() == j,
            forall|k: int| 0 <= k < j ==> r@[k] == v@[k],
        decreases v@.len() - j,
    {
        r.push(v[j]);
        j += 1;
    }
    r.set(i, false);
    proof {
        assert(r@ =~= v@.update(i as int, false));
    }
    r
}

/// The corner cells of the placing player that survive a placement.
fn filter_own(list: &Vec<(i8, i8)>, tp: &TransformedPiece, x: i8, y: i8) -> (r: Vec<(i8, i8)>)
    requires
        tp.wf(),
        0 <= x < 31,
        0 <= y < 125,
        forall|k: int|
            0 <= k < list@.len() ==> 0 <= (#[trigger] list@[k]).0 < 31 && 0 <= list@[k].1 < 125,
    ensures
        r@ == list@.filter(own_keep_pred(*tp, x as int, y as int)),
{
    let ghost pred = own_keep_pred(*tp, x as int, y as int);
    let mut r: Vec<(i8, i8)> = Vec::new();
    let mut k: usize = 0;
    while k < list.len()
        invariant
            k <= list@.len(),
            tp.wf(),
            0 <= x < 31,
            0 <= y < 125,
            forall|k2: int|
                0 <= k2 < list@.len() ==> 0 <= (#[trigger] list@[k2]).0 < 31 && 0 <= list@[k2].1
                    < 125,
            pred == own_keep_pred(*tp, x as int, y as int),
            r@ == list@.take(k as int).filter(pred),
        decreases list@.len() - k,
    {
        let c = list[k];
        let v = match tp.neighbor_mask.get_i8(c.0 - x + 1, c.1 - y + 1) {
            Some(v) => v,
            None => 0,
        };
        proof {
            assert(v == nb_at(*tp, x as int, y as int, c));
            lemma_take_push(list@, k as int);
            lemma_filter_push(list@.take(k as int), pred, c);
        }
        if v == 0 {
            r.push(c);
        }
        k += 1;
    }
    proof {
        assert(list@.take(list@.len() as int) =~= list@);
    }
    r
}

/// The corner cells of another player that survive a placement.
fn filter_other(list: &Vec<(i8, i8)>, tp: &TransformedPiece, x: i8, y: i8) -> (r: Vec<(i8, i8)>)
    requires
        tp.wf(),
        0 <= x < 31,
        0 <= y < 125,
        forall|k: int|
            0 <= k < list@.len() ==> 0 <= (#[trigger] list@[k]).0 < 31 && 0 <= list@[k].1 < 125,
    ensures
        r@ == list@.filter(other_keep_pred(*tp, x as int, y as int)),
{
    let ghost pred = other_keep_pred(*tp, x as int, y as int);
    let mut r: Vec<(i8, i8)> = Vec::new();
    let mut k: usize = 0;
    while k < list.len()
        invariant
            k <= list@.len(),
            tp.wf(),
            0 <= x < 31,
            0 <= y < 125,
            forall|k2: int|
                0 <= k2 < list@.len() ==> 0 <= (#[trigger] list@[k2]).0 < 31 && 0 <= list@[k2].1
                    < 125,
            pred == other_keep_pred(*tp, x as int, y as int),
            r@ == list@.take(k as int).filter(pred),
        decreases list@.len() - k,
    {
        let c = list[k];
        let v = match tp.neighbor_mask.get_i8(c.0 - x + 1, c.1 - y + 1) {
            Some(v) => v,
            None => 0,
        };
        proof {
            assert(v == nb_at(*tp, x as int, y as int, c));
            lemma_take_push(list@, k as int);
            lemma_filter_push(list@.take(k as int), pred, c);
        }
        if v != 0xF {
            r.push(c);
        }
        k += 1;
    }
    proof {
        assert(list@.take(list@.len() as int) =~= list@);
    }
    r
}

/// The surviving new corner candidates of the placed piece in one
/// diagonal direction.
fn added_corners(
    board2: &Mask,
    cm: &Mask,
    tp: &TransformedPiece,
    d: usize,
    x: i8,
    y: i8,
) -> (r: Vec<(i8, i8)>)
    requires
        board2.wf(),
        2 <= board2@.w <= 31,
        2 <= board2@.rows.len() <= 125,
        cm.wf(),
        cm@.rows.len() == 3,
        tp.wf(),
        d < 4,
        0 <= x < 31,
        0 <= y < 125,
    ensures
        r@ == added_corners_view(
            *tp,
            d as int,
            x as int,
            y as int,
            board2@.w,
            board2@.rows.len() as int,
            board2@,
            cm@,
        ),
{
    let ghost mapf = cand_fn(d as int, x as int, y as int);
    let ghost pred = new_corner_pred(board2@.w, board2@.rows.len() as int, board2@, cm@);
    let bw: i32 = board2.w() as i32;
    let bh: i32 = board2.h() as i32;
    let dx: i32 = if d == 0 || d == 2 {
        1
    } else {
        -1
    };
    let dy: i32 = if d == 0 || d == 1 {
        1
    } else {
        -1
    };
    proof {
        assert(dx as int == corner_dx(d as int) && dy as int == corner_dy(d as int));
    }
    let plist = &tp.corners[d];
    let mut r: Vec<(i8, i8)> = Vec::new();
    let mut k: usize = 0;
    while k < plist.len()
        invariant
            k <= plist@.len(),
            board2.wf(),
            2 <= board2@.w <= 31,
            2 <= board2@.rows.len() <= 125,
            cm.wf(),
            tp.wf(),
            d < 4,
            0 <= x < 31,
            0 <= y < 125,
            bw as int == board2@.w,
            bh as int == board2@.rows.len(),
            dx as int == corner_dx(d as int),
            dy as int == corner_dy(d as int),
            plist@ == tp.corners[d as int]@,
            mapf == cand_fn(d as int, x as int, y as int),
            pred == new_corner_pred(board2@.w, board2@.rows.len() as int, board2@, cm@),
            r@ == plist@.take(k as int).map_values(mapf).filter(pred).map_values(narrow_fn()),
        decreases plist@.len() - k,
    {
        let pc = plist[k];
        proof {
            assert(plist@.contains(plist@[k as int]));
        }
        let cxi: i32 = x as i32 + pc.0 as i32 + dx;
        let cyi: i32 = y as i32 + pc.1 as i32 + dy;
        let ghost cand = mapf(pc);
        proof {
            assert(cand == (cxi as int, cyi as int));
            lemma_take_push(plist@, k as int);
            lemma_map_push(plist@.take(k as int), mapf, pc);
            lemma_filter_push(plist@.take(k as int).map_values(mapf), pred, cand);
        }
        if 0 <= cxi && cxi < bw && 0 <= cyi && cyi < bh {
            let c: (i8, i8) = (cxi as i8, cyi as i8);
            if board2.no_overlap(cm, (c.0 - 1, c.1 - 1)) {
                proof {
                    assert(pred(cand));
                    lemma_map_push(
                        plist@.take(k as int).map_values(mapf).filter(pred),
                        narrow_fn(),
                        cand,
                    );
                    assert(narrow_fn()(cand) == c);
                }
                r.push(c);
            } else {
                proof {
                    assert(!pred(cand));
                }
            }
        } else {
            proof {
                assert(!pred(cand));
            }
        }
        k += 1;
    }
    proof {
        assert(plist@.take(plist@.len() as int) =~= plist@);
    }
    r
}

impl<'game> State<'game> {
    /// Place a piece on the board.  The move must be one that
    /// `get_moves` would return for the current state.
    pub fn place_piece(&mut self, player: &Player, mv: &Move)
        requires
            old(self).wf(),
            is_candidate(old(self)@, old(self).spec_catalog(), player.spec_id(), *mv),
        ensures
            final(self).wf(),
            final(self).spec_catalog() == old(self).spec_catalog(),
            final(self)@ == place_view(
                old(self)@,
                old(self).spec_catalog(),
                player.spec_id(),
                *mv,
            ),
    {
        let ghost v0 = self@;
        let ghost cat = self.spec_catalog();
        let ghost pv = place_view(v0, cat, player.spec_id(), *mv);
        let p = player.id();
        let pid = mv.piece.piece.id();
        let vid = mv.piece.version;
        let pieces_ref = self.pieces;
        proof {
            assert(cat[p as int] == pieces_ref@[p as int]@);
        }
        let tp = &pieces_ref[p][pid].versions[vid];
        let x = mv.pos.0;
        let y = mv.pos.1;

        // Place the piece on the board.
        self.board.assign_or(&tp.mask, (x, y));
        proof {
            assert(self@.board == pv.board);
            assert(self.spec_catalog() == cat);
        }

        // Remove the piece from the player's pieces.
        let inv = updated_bools(&self.player_pieces[p], pid);
        self.player_pieces.set(p, inv);
        proof {
            assert(self@.avail =~~= pv.avail);
            assert(self@.board == pv.board);
            assert(self.spec_catalog() == cat);
        }

        // Update the corners: the placing player loses what the piece
        // or its halo covers and gains the surviving diagonal
        // candidates; the others lose exactly what the piece itself
        // covers.
        let cm = check_mask(player);
        let mut q: usize = 0;
        while q < 4
            invariant
                q <= 4,
                p == player.spec_id(),
                p < 4,
                self.shape_wf(),
                self@.board == pv.board,
                self@.avail =~~= pv.avail,
                self.spec_catalog() == cat,
                self.board.wf(),
                2 <= self@.board.w <= 31,
                2 <= self@.board.rows.len() <= 125,
                self@.board.w == v0.board.w,
                self@.board.rows.len() == v0.board.rows.len(),
                cm.wf(),
                cm@ == check_mask_view(p as int),
                tp.wf(),
                *tp == cat[p as int][pid as int].versions@[vid as int],
                0 <= x < 31,
                0 <= y < 125,
                x == mv.pos.0,
                y == mv.pos.1,
                pid == mv.piece.piece.piece,
                vid == mv.piece.version,
                pv == place_view(v0, cat, p as int, *mv),
                view_wf(v0, cat),
                forall|q2: int, dd: int|
                    0 <= q2 < q && 0 <= dd < 4 ==> self@.corners[q2][dd] == #[trigger] pv.corners[q2][dd],
                forall|q2: int, dd: int|
                    q <= q2 < 4 && 0 <= dd < 4 ==> self@.corners[q2][dd] == #[trigger] v0.corners[q2][dd],
            decreases 4 - q,
        {
            let mut newrow: Vec<Vec<(i8, i8)>> = Vec::new();
            let mut d: usize = 0;
            while d < 4
                invariant
                    d <= 4,
                    q < 4,
                    p == player.spec_id(),
                    p < 4,
                    self.shape_wf(),
                    self@.board == pv.board,
                    self.board.wf(),
                    2 <= self@.board.w <= 31,
                    2 <= self@.board.rows.len() <= 125,
                    self@.board.w == v0.board.w,
                    self@.board.rows.len() == v0.board.rows.len(),
                    cm.wf(),
                    cm@ == check_mask_view(p as int),
                    tp.wf(),
                    *tp == cat[p as int][pid as int].versions@[vid as int],
                    0 <= x < 31,
                    0 <= y < 125,
                    x == mv.pos.0,
                    y == mv.pos.1,
                    pid == mv.piece.piece.piece,
                    vid == mv.piece.version,
                    pv == place_view(v0, cat, p as int, *mv),
                    view_wf(v0, cat),
                    forall|q2: int, dd: int|
                        q <= q2 < 4 && 0 <= dd < 4 ==> self@.corners[q2][dd] == #[trigger] v0.corners[q2][dd],
                    newrow@.len() == d,
                    forall|dd: int|
                        0 <= dd < d ==> (#[trigger] newrow@[dd])@ == pv.corners[q as int][dd],
                decreases 4 - d,
            {
                proof {
                    assert(self@.corners[q as int][d as int] == v0.corners[q as int][d as int]);
                    assert(self.corners@[q as int]@[d as int]@ == v0.corners[q as int][d as int]);
                }
                let mut list = if q == p {
                    filter_own(&self.corners[q][d], tp, x, y)
                } else {
                    filter_other(&self.corners[q][d], tp, x, y)
                };
                if q == p {
                    let mut add = added_corners(&self.board, &cm, tp, d, x, y);
                    let ghost lg = list@;
                    let ghost ag = add@;
                    list.append(&mut add);
                    proof {
                        assert(list@ == lg + ag);
                    }
                }
                proof {
                    assert(list@ == pv.corners[q as int][d as int]);
                }
                newrow.push(list);
                d += 1;
            }
            self.corners.set(q, newrow);
            proof {
                assert forall|q2: int, dd: int|
                    0 <= q2 < q + 1 && 0 <= dd < 4 implies self@.corners[q2][dd] == #[trigger] pv
                    .corners[q2][dd] by {
                    if q2 == q {
                        assert(self.corners@[q2]@[dd]@ == pv.corners[q2][dd]);
                    }
                }
            }
            q += 1;
        }
        proof {
            assert(self@.corners =~~= pv.corners);
            assert(self@ =~~= pv);
            lemma_place_view_wf(v0, cat, p as int, *mv);
        }
    }
}

/// Placement preserves well-formedness of the state view.
pub proof fn lemma_place_view_wf(v: StateView, cat: Seq<Seq<Piece>>, player: int, mv: Move)
    requires
        view_wf(v, cat),
        is_candidate(v, cat, player, mv),
    ensures
        view_wf(place_view(v, cat, player, mv), cat),
{
    let pv = place_view(v, cat, player, mv);
    let pid = mv.piece.piece.piece as int;
    let vid = mv.piece.version as int;
    let tp = cat[player][pid].versions@[vid];
    let x = mv.pos.0 as int;
    let y = mv.pos.1 as int;
    let board2 = view_or(v.board, tp.mask@, x, y);
    assert(pv.board.wf() && pv.board.w == v.board.w && pv.board.rows.len() == v.board.rows.len())
        by {
        lemma_view_or_wf(v.board, tp.mask@, x, y);
    }
    assert forall|p2: int, d: int, i: int|
        0 <= p2 < 4 && 0 <= d < 4 && 0 <= i < pv.corners[p2][d].len() implies pv.board.in_bounds(
        (#[trigger] pv.corners[p2][d][i]).0 as int,
        pv.corners[p2][d][i].1 as int,
    ) by {
        let c = pv.corners[p2][d][i];
        let cmv = check_mask_view(player);
        if p2 == player {
            let kept = v.corners[p2][d].filter(own_keep_pred(tp, x, y));
            if i < kept.len() {
                assert(kept.contains(kept[i]));
                lemma_filter_sub(v.corners[p2][d], own_keep_pred(tp, x, y), kept[i]);
                assert(v.corners[p2][d].contains(c));
                let j = choose|j: int|
                    0 <= j < v.corners[p2][d].len() && v.corners[p2][d][j] == c;
            } else {
                let fi = i - kept.len();
                let mapped = tp.corners[d]@.map_values(cand_fn(d, x, y));
                let pred = new_corner_pred(v.board.w, v.board.rows.len() as int, board2, cmv);
                let filtered = mapped.filter(pred);
                mapped.lemma_filter_pred(pred, fi);
                assert(c == narrow_fn()(filtered[fi]));
            }
        } else {
            let kept = v.corners[p2][d].filter(other_keep_pred(tp, x, y));
            assert(kept.contains(kept[i]));
            lemma_filter_sub(v.corners[p2][d], other_keep_pred(tp, x, y), kept[i]);
            assert(v.corners[p2][d].contains(c));
            let j = choose|j: int| 0 <= j < v.corners[p2][d].len() && v.corners[p2][d][j] == c;
        }
    }
}

/// OR-ing a piece into a board keeps the board well formed and its
/// dimensions.
pub proof fn lemma_view_or_wf(a: MaskView, b: MaskView, x: int, y: int)
    requires
        a.wf(),
    ensures
        view_or(a, b, x, y).wf(),
        view_or(a, b, x, y).w == a.w,
        view_or(a, b, x, y).rows.len() == a.rows.len(),
{
    let r = view_or(a, b, x, y);
    assert forall|j: int| 0 <= j < r.rows.len() implies (#[trigger] r.rows[j]) >> ((4 * r.w)
        as u128) == 0 by {
        if overlap_start(y) <= j < overlap_start(y) + overlap_count(
            a.rows.len() as int,
            b.rows.len() as int,
            y,
        ) {
            crate::mask::lemma_low_mask(
                a.rows[j] | crate::mask::shift_spec(b.rows[j - y], 4 * x),
                (4 * a.w) as u128,
            );
        }
    }
}

/// The view of a fresh game: empty board, one starting corner per
/// player, full inventories.
pub open spec fn init_view(w: int, h: int, cat: Seq<Seq<Piece>>) -> StateView {
    StateView {
        board: MaskView { w: w, rows: Seq::new(h as nat, |j: int| 0u128) },
        corners: Seq::new(
            4,
            |p: int|
                Seq::new(
                    4,
                    |d: int|
                        if p == 0 && d == 0 {
                            seq![(0i8, 0i8)]
                        } else if p == 1 && d == 1 {
                            seq![((w - 1) as i8, 0i8)]
                        } else if p == 2 && d == 3 {
                            seq![((w - 1) as i8, (h - 1) as i8)]
                        } else if p == 3 && d == 2 {
                            seq![(0i8, (h - 1) as i8)]
                        } else {
                            Seq::<(i8, i8)>::empty()
                        },
                ),
        ),
        avail: Seq::new(4, |p: int| Seq::new(cat[p].len(), |i: int| true)),
    }
}

/// One step of a replay: apply the move if it is legal for the given
/// player in the given state, else leave the state unchanged.
pub open spec fn replay_step(v: StateView, cat: Seq<Seq<Piece>>, m: (Player, Move)) -> StateView {
    if is_candidate(v, cat, m.0.spec_id(), m.1) {
        place_view(v, cat, m.0.spec_id(), m.1)
    } else {
        v
    }
}

/// The state reached by replaying a sequence of (player, move) pairs:
/// a function of the starting state, the catalog and the sequence
/// alone, so two replays of one sequence end bit-for-bit equal.
pub open spec fn replay_view(v: StateView, cat: Seq<Seq<Piece>>, moves: Seq<(Player, Move)>) -> StateView
    decreases moves.len(),
{
    if moves.len() == 0 {
        v
    } else {
        replay_view(replay_step(v, cat, moves[0]), cat, moves.subrange(1, moves.len() as int))
    }
}

/// Replaying one more move equals one incremental step after replaying
/// the prefix: incremental application and replay agree.
pub proof fn lemma_replay_push(
    v: StateView,
    cat: Seq<Seq<Piece>>,
    moves: Seq<(Player, Move)>,
    m: (Player, Move),
)
    ensures
        replay_view(v, cat, moves.push(m)) == replay_step(replay_view(v, cat, moves), cat, m),
    decreases moves.len(),
{
    let s1 = moves.push(m);
    if moves.len() == 0 {
        assert(s1[0] == m);
        assert(s1.subrange(1, 1) =~= Seq::<(Player, Move)>::empty());
        assert(replay_view(v, cat, s1) == replay_view(
            replay_step(v, cat, m),
            cat,
            s1.subrange(1, 1),
        ));
        assert(replay_view(replay_step(v, cat, m), cat, s1.subrange(1, 1)) == replay_step(
            v,
            cat,
            m,
        ));
        assert(replay_view(v, cat, moves) == v);
    } else {
        assert(s1[0] == moves[0]);
        assert(s1.subrange(1, s1.len() as int) =~= moves.subrange(1, moves.len() as int).push(m));
        assert(replay_view(v, cat, s1) == replay_view(
            replay_step(v, cat, moves[0]),
            cat,
            s1.subrange(1, s1.len() as int),
        ));
        lemma_replay_push(
            replay_step(v, cat, moves[0]),
            cat,
            moves.subrange(1, moves.len() as int),
            m,
        );
        assert(replay_view(v, cat, moves) == replay_view(
            replay_step(v, cat, moves[0]),
            cat,
            moves.subrange(1, moves.len() as int),
        ));
    }
}

/// A player must pass exactly when nothing can be placed: the move
/// list is empty if and only if no available piece transform is at
/// once anchored at one of the player's corner cells, fully on the
/// board, and clear of every bit of the player's exclusion pattern.
pub proof fn lemma_no_moves_iff(v: StateView, cat: Seq<Seq<Piece>>, player: int, moves: Seq<Move>)
    requires
        forall|mv: Move| #[trigger] moves.contains(mv) <==> is_candidate(v, cat, player, mv),
    ensures
        moves.len() == 0 <==> !(exists|mv: Move| is_candidate(v, cat, player, mv)),
{
    if moves.len() > 0 {
        assert(moves.contains(moves[0]));
    }
    if exists|mv: Move| is_candidate(v, cat, player, mv) {
        let mv = choose|mv: Move| is_candidate(v, cat, player, mv);
        assert(moves.contains(mv));
    }
}

impl<'game> State<'game> {
    /// Whether `mv` is one of the moves `get_moves` returns for
    /// `player` on the current state.
    pub fn is_legal(&self, player: &Player, mv: &Move) -> (r: bool)
        requires
            self.wf(),
        ensures
            r == is_candidate(self@, self.spec_catalog(), player.spec_id(), *mv),
    {
        let moves = self.get_moves(player);
        let mut i: usize = 0;
        while i < moves.len()
            invariant
                i <= moves@.len(),
                forall|m2: Move|
                    #[trigger] moves@.contains(m2) <==> is_candidate(
                        self@,
                        self.spec_catalog(),
                        player.spec_id(),
                        m2,
                    ),
                forall|k: int| 0 <= k < i ==> moves@[k] != *mv,
            decreases moves@.len() - i,
        {
            let m = moves[i];
            if m.piece.piece.piece == mv.piece.piece.piece && m.piece.version == mv.piece.version
                && m.pos.0 == mv.pos.0 && m.pos.1 == mv.pos.1 {
                proof {
                    assert(moves@[i as int] == *mv);
                    assert(moves@.contains(*mv));
                }
                return true;
            }
            i += 1;
        }
        proof {
            if moves@.contains(*mv) {
                let k = choose|k: int| 0 <= k < moves@.len() && moves@[k] == *mv;
            }
        }
        false
    }

    /// Replay a sequence of (player, move) pairs from this state,
    /// applying each move that is legal when its turn comes and
    /// skipping the rest.  The result is a function of the starting
    /// state, the catalog and the sequence alone.
    pub fn replay(&mut self, moves: &Vec<(Player, Move)>)
        requires
            old(self).wf(),
        ensures
            final(self).wf(),
            final(self).spec_catalog() == old(self).spec_catalog(),
            final(self)@ == replay_view(old(self)@, old(self).spec_catalog(), moves@),
    {
        let ghost v0 = self@;
        let ghost cat = self.spec_catalog();
        let mut k: usize = 0;
        while k < moves.len()
            invariant
                k <= moves@.len(),
                self.wf(),
                self.spec_catalog() == cat,
                self@ == replay_view(v0, cat, moves@.take(k as int)),
            decreases moves@.len() - k,
        {
            let pl = moves[k].0;
            let mv = moves[k].1;
            proof {
                lemma_take_push(moves@, k as int);
                lemma_replay_push(v0, cat, moves@.take(k as int), moves@[k as int]);
            }
            if self.is_legal(&pl, &mv) {
                self.place_piece(&pl, &mv);
            }
            k += 1;
        }
        proof {
            assert(moves@.take(moves@.len() as int) =~= moves@);
        }
    }
}

impl<'game> Dimensioned for State<'game> {
    /// Get the width of the board.
    fn w(&self) -> i8 {
        self.board.w()
    }

    /// Get the height of the board, saturated to the largest cell
    /// coordinate.
    fn h(&self) -> i8 {
        let n = self.board.iter().len();
        if n > 127 {
            127
        } else {
            n as i8
        }
    }
}

/// OR-ing bits into a confined row never clears a bit.
pub proof fn lemma_row_gains_bits(row: u128, s: u128, m: u128)
    by (bit_vector)
    requires
        row & m == row,
    ensures
        ((row | s) & m) | row == (row | s) & m,
{
}

/// Once occupied, always occupied: a placement only adds bits to the
/// board, so an occupied cell stays occupied (and so excluded for
/// every player) forever.
pub proof fn lemma_board_monotone(v: StateView, cat: Seq<Seq<Piece>>, player: int, mv: Move)
    requires
        view_wf(v, cat),
        is_candidate(v, cat, player, mv),
    ensures
        place_view(v, cat, player, mv).board.rows.len() == v.board.rows.len(),
        forall|j: int|
            0 <= j < v.board.rows.len() ==> (#[trigger] place_view(
                v,
                cat,
                player,
                mv,
            ).board.rows[j]) | v.board.rows[j] == place_view(v, cat, player, mv).board.rows[j],
{
    let pv = place_view(v, cat, player, mv);
    let pid = mv.piece.piece.piece as int;
    let vid = mv.piece.version as int;
    let tp = cat[player][pid].versions@[vid];
    let x = mv.pos.0 as int;
    let y = mv.pos.1 as int;
    assert(pv.board == view_or(v.board, tp.mask@, x, y));
    assert forall|j: int| 0 <= j < v.board.rows.len() implies (#[trigger] pv.board.rows[j])
        | v.board.rows[j] == pv.board.rows[j] by {
        if overlap_start(y) <= j < overlap_start(y) + overlap_count(
            v.board.rows.len() as int,
            tp.mask@.rows.len() as int,
            y,
        ) {
            assert(pv.board.rows[j] == (v.board.rows[j] | crate::mask::shift_spec(
                tp.mask@.rows[j - y],
                4 * x,
            )) & low_mask(v.board.w));
            crate::mask::lemma_low_mask(v.board.rows[j], (4 * v.board.w) as u128);
            lemma_row_gains_bits(
                v.board.rows[j],
                crate::mask::shift_spec(tp.mask@.rows[j - y], 4 * x),
                low_mask(v.board.w),
            );
            assert(pv.board.rows[j] | v.board.rows[j] == pv.board.rows[j]);
        } else {
            assert(pv.board.rows[j] == v.board.rows[j]);
            let r = pv.board.rows[j];
            assert(r | r == r) by (bit_vector);
        }
    }
}

/// An inventory bit is cleared exactly once and never restored: a
/// placement clears the placed piece's bit for the placing player and
/// leaves every other inventory flag as it was.
pub proof fn lemma_inventory_monotone(v: StateView, cat: Seq<Seq<Piece>>, player: int, mv: Move)
    requires
        view_wf(v, cat),
        is_candidate(v, cat, player, mv),
    ensures
        !place_view(v, cat, player, mv).avail[player][mv.piece.piece.piece as int],
        forall|q: int, i: int|
            0 <= q < 4 && 0 <= i < v.avail[q].len() && !(q == player && i
                == mv.piece.piece.piece as int) ==> place_view(v, cat, player, mv).avail[q][i]
                == v.avail[q][i],
        forall|q: int, i: int|
            0 <= q < 4 && 0 <= i < v.avail[q].len() ==> (place_view(
                v,
                cat,
                player,
                mv,
            ).avail[q][i] ==> #[trigger] v.avail[q][i]),
{
}

/// A piece leaves the game for good: after a placement, no move of the
/// placing player playing the same base piece is a candidate again.
pub proof fn lemma_piece_used_once(
    v: StateView,
    cat: Seq<Seq<Piece>>,
    player: int,
    mv: Move,
    mv2: Move,
)
    requires
        view_wf(v, cat),
        is_candidate(v, cat, player, mv),
        mv2.piece.piece.piece == mv.piece.piece.piece,
    ensures
        !is_candidate(place_view(v, cat, player, mv), cat, player, mv2),
{
    assert(!place_view(v, cat, player, mv).avail[player][mv.piece.piece.piece as int]);
}

/// A vector of `n` `true` flags: a full inventory.
fn full_inventory(n: usize) -> (r: Vec<bool>)
    ensures
        r@.len() == n,
        forall|i: int| 0 <= i < n ==> r@[i] == true,
{
    let mut r: Vec<bool> = Vec::new();
    let mut i: usize = 0;
    while i < n
        invariant
            i <= n,
            r@.len() == i,
            forall|j: int| 0 <= j < i ==> r@[j] == true,
        decreases n - i,
    {
        r.push(true);
        i += 1;
    }
    r
}

/// The number of cells among the first `x` of `row` holding exactly
/// the nibble `c`.
pub open spec fn row_color_count(row: u128, x: int, c: u128) -> int
    decreases x,
{
    if x <= 0 {
        0
    } else {
        row_color_count(row, x - 1, c) + if nibble_of(row, x - 1) == c {
            1int
        } else {
            0int
        }
    }
}

/// The number of cells of `m` holding exactly the nibble `c`, over the
/// first `h` rows.
pub open spec fn color_count(m: MaskView, c: u128, h: int) -> int
    decreases h,
{
    if h <= 0 {
        0
    } else {
        color_count(m, c, h - 1) + row_color_count(m.rows[h - 1], m.w, c)
    }
}

proof fn lemma_row_color_count_bound(row: u128, x: int, c: u128)
    ensures
        0 <= row_color_count(row, x, c) <= if x >= 0 {
            x
        } else {
            0
        },
    decreases x,
{
    if x > 0 {
        lemma_row_color_count_bound(row, x - 1, c);
    }
}

proof fn lemma_color_count_bound(m: MaskView, c: u128, h: int)
    requires
        m.w <= 31,
        0 <= m.w,
    ensures
        0 <= color_count(m, c, h) <= if h >= 0 {
            h * 31
        } else {
            0
        },
    decreases h,
{
    if h > 0 {
        lemma_color_count_bound(m, c, h - 1);
        lemma_row_color_count_bound(m.rows[h - 1], m.w, c);
    }
}

} // verus!
