use blokus_ai::state::{standard_pieces, Move, State};
use blokus_ai::utils::{Corner, PieceID, PieceTransformID, Player};
use blokus_ai::windowed;

/// On a fresh empty 20x20 board the number of legal first moves of
/// every player is the same in both engine representations.
#[test]
fn test_move_counts_match() {
    // make sure move counts match across representations

    let pieces = standard_pieces();
    let game1 = State::new(20, 20, &pieces);
    let game3 = windowed::state::State::new(20, 20);

    for player in Player::iter() {
        let moves1 = game1.get_moves(&player);
        let moves3 = game3.get_moves(&player);

        println!("{:?}", (moves1.len(), moves3.len()));

        assert!(moves1.len() == moves3.len());
    }
}

/// Scenario: on a fresh board the first player's only anchor is the
/// board corner; the single-tile piece placed there occupies exactly
/// one cell, frees the diagonal neighbor as a new anchor, and the
/// corner cell stops being an anchor for everyone.
#[test]
fn place_single_tile_at_corner() {
    let pieces = standard_pieces();
    let mut game = State::new(20, 20, &pieces);
    let p1 = Player::Player1;

    // the only anchor of the first player is (0, 0)
    assert!(game.is_corner(&p1, 0, 0));
    for x in 0..20 {
        for y in 0..20 {
            if (x, y) != (0, 0) {
                assert!(!game.is_corner(&p1, x, y));
            }
        }
    }
    let moves = game.get_moves(&p1);
    // the single-tile piece at the corner is among them
    let tid = PieceTransformID::new(&PieceID::from_id(0), 0);
    assert!(moves
        .iter()
        .any(|m| m.piece == tid && m.pos == (0, 0)));

    game.place_piece(&p1, &Move::new(tid, (0, 0)));

    // exactly one cell is occupied, in the player's color
    assert_eq!(game.cell(0, 0), 0b0001);
    let mut occupied = 0;
    for x in 0..20 {
        for y in 0..20 {
            if game.cell(x, y) != 0 {
                occupied += 1;
            }
        }
    }
    assert_eq!(occupied, 1);
    assert_eq!(game.scores()[0], 1);

    // the corner is no longer an anchor for any player, and the
    // diagonal neighbor became one for the placing player
    for player in Player::iter() {
        assert!(!game.is_corner(&player, 0, 0));
    }
    assert!(game.is_corner(&p1, 1, 1));
    // the edge-adjacent cells did not become anchors
    assert!(!game.is_corner(&p1, 1, 0));
    assert!(!game.is_corner(&p1, 0, 1));
}

/// Scenario: after the 4-long straight piece, a placement that would
/// sit edge-adjacent to the player's own tiles is absent from the
/// move list.
#[test]
fn edge_adjacent_placement_rejected() {
    let pieces = standard_pieces();
    let mut game = State::new(20, 20, &pieces);
    let p1 = Player::Player1;

    // pick the horizontal 4-long straight piece out of the move list
    let moves = game.get_moves(&p1);
    let mv = moves
        .iter()
        .find(|m| {
            usize::from(m.piece.piece.piece) == 4
                && pieces[0][4].versions[m.piece.version].mask.h() == 1
        })
        .copied();
    // the corner anchor admits no horizontal 4-long placement other
    // than at the corner itself
    let mv = mv.expect("the straight piece must be placeable on a fresh board");
    assert_eq!(mv.pos, (0, 0));
    game.place_piece(&p1, &mv);

    // a single tile directly right of the piece's last cell would be
    // edge-adjacent: it must not be offered
    let tid = PieceTransformID::new(&PieceID::from_id(0), 0);
    let moves = game.get_moves(&p1);
    assert!(!moves.iter().any(|m| m.piece == tid && m.pos == (4, 0)));
    // while the diagonal cell past the end is offered
    assert!(moves.iter().any(|m| m.piece == tid && m.pos == (4, 1)));
}

/// The same rejection on the windowed engine: the placement is
/// anchored on a corner cell but overlaps the player's exclusion
/// pattern.
#[test]
fn windowed_edge_adjacent_placement_rejected() {
    let mut game = windowed::state::State::new(20, 20);
    let p1 = Player::Player1;

    // place the horizontal 4-long straight piece at (1, 1): piece 9
    game.place_piece(&p1, &windowed::state::Move::new(9, (1, 1)));
    assert!(game.check());

    let moves = game.get_moves(&p1);
    // the 2-long horizontal piece at (5, 2) would cover (5, 2) and
    // (6, 2); (5, 2) anchors at the diagonal of (4, 1), and the
    // placement is offered
    assert!(moves
        .iter()
        .any(|m| m.piece == 1 && m.pos == (5, 2)));
    // at (4, 2) it would cover the edge-adjacent cell (4, 2): absent
    assert!(!moves
        .iter()
        .any(|m| m.piece == 1 && m.pos == (4, 2)));
}

/// Determinism round trip: replaying an identical sequence of
/// (player, move) pairs from a fresh board gives grids identical to
/// applying the moves incrementally.
#[test]
fn replay_matches_incremental() {
    let pieces = standard_pieces();
    let mut incremental = State::new(20, 20, &pieces);

    // drive a short deterministic game: each player in turn plays the
    // first move of its list
    let mut seq: Vec<(Player, Move)> = Vec::new();
    for _round in 0..3 {
        for player in Player::iter() {
            let moves = incremental.get_moves(&player);
            if let Some(mv) = moves.first() {
                incremental.place_piece(&player, mv);
                seq.push((player, *mv));
            }
        }
    }

    let mut replayed = State::new(20, 20, &pieces);
    replayed.replay(&seq);

    for x in 0..20 {
        for y in 0..20 {
            assert_eq!(replayed.cell(x, y), incremental.cell(x, y));
            for player in Player::iter() {
                assert_eq!(
                    replayed.is_corner(&player, x, y),
                    incremental.is_corner(&player, x, y)
                );
            }
        }
    }
    assert_eq!(replayed.scores(), incremental.scores());
}

/// Scenario: a fully played out single-player game; the final score
/// equals the total number of tiles of the pieces actually placed.
#[test]
fn single_player_playout_score() {
    let pieces = standard_pieces();
    let mut game = State::new(20, 20, &pieces);
    let p1 = Player::Player1;

    let mut placed_tiles: u32 = 0;
    loop {
        let moves = game.get_moves(&p1);
        if moves.is_empty() {
            break;
        }
        let mv = moves[0];
        // count the tiles of the placed variant
        let tp = &pieces[0][usize::from(mv.piece.piece.piece)].versions[mv.piece.version];
        let mut tiles = 0;
        for x in 0..tp.mask.w() {
            for y in 0..tp.mask.h() {
                if tp.mask.get(x, y).unwrap_or(0) != 0 {
                    tiles += 1;
                }
            }
        }
        game.place_piece(&p1, &mv);
        placed_tiles += tiles;
    }

    assert_eq!(game.scores()[0], placed_tiles);
    // no other player placed anything
    assert_eq!(game.scores()[1], 0);
    assert_eq!(game.scores()[2], 0);
    assert_eq!(game.scores()[3], 0);
}

/// A placed piece leaves the inventory of the placing player only.
#[test]
fn inventory_shrinks_once() {
    let pieces = standard_pieces();
    let mut game = State::new(20, 20, &pieces);
    let p1 = Player::Player1;
    for pid in 0..21 {
        assert!(game.has_piece(&p1, pid));
    }
    let tid = PieceTransformID::new(&PieceID::from_id(0), 0);
    game.place_piece(&p1, &Move::new(tid, (0, 0)));
    assert!(!game.has_piece(&p1, 0));
    for pid in 1..21 {
        assert!(game.has_piece(&p1, pid));
    }
    for player in [Player::Player2, Player::Player3, Player::Player4] {
        for pid in 0..21 {
            assert!(game.has_piece(&player, pid));
        }
    }
    // no move of the used piece is offered again
    let moves = game.get_moves(&p1);
    assert!(moves.iter().all(|m| m.piece.piece.piece != 0));
}

/// The catalog holds 21 base pieces per player, with the documented
/// variant counts summing to 91 (89 within the 4x4 box plus the two
/// 5-long straight orientations).
#[test]
fn catalog_shape() {
    let pieces = standard_pieces();
    for p in 0..4 {
        assert_eq!(pieces[p].len(), 21);
        let variants: usize = pieces[p].iter().map(|pc| pc.versions.len()).sum();
        assert_eq!(variants, 91);
    }
}

/// Players, corners and colors behave as documented.
#[test]
fn player_and_corner_basics() {
    assert_eq!(Player::Player1.next(), Player::Player2);
    assert_eq!(Player::Player4.next(), Player::Player1);
    assert_eq!(Player::Player1.mask(), 0b0001);
    assert_eq!(Player::Player3.mask(), 0b0100);
    assert_eq!(Corner::PosPos.opposite(), Corner::NegNeg);
    assert_eq!(Corner::NegPos.opposite(), Corner::PosNeg);
    assert_eq!(Corner::PosPos.offset(3, 4), (4, 5));
    assert_eq!(Corner::NegNeg.offset(3, 4), (2, 3));
}
