use blokus_ai::utils::Player;
use blokus_ai::windowed::state::{piece_size, Move, State};

#[test]
fn check_place_corner_one() {
    // Take the
    // X
    // piece
    let piece = 0;

    // Place it in the top left at (0, 0)
    let mut game = State::new(20, 20);
    assert!(game.check());
    game.place_piece(&Player::Player1, &Move::new(piece, (0, 0)));
    // Make sure all the masks are valid
    assert!(game.check());

    // The exclusion windows at the top left should look like
    // (0, 0):
    // 0011
    // 0001
    // 0000
    // 0000
    assert!(game.occupied_window(0, 0) == 0b0000000000010011);
    assert!(game.occupied_window(0, 1) == 1);
    assert!(game.occupied_window(0, 20) == 1);
    assert!(game.occupied_window(1, 0) == 1);
    assert!(game.occupied_window(2, 0) == 1);
    assert!(game.occupied_window(3, 0) == 1);
    // Corner windows: the covered starting corner stops being an
    // anchor and the diagonal candidate appears
    assert!(game.corner_window(0, 0) == 0b00100000);
    for p in 0..4 {
        assert_eq!(game.corner_window(p, 0) & 1, 0);
    }
    assert!(game.corner_window(0, 1) == 0b00010000);
    assert!(game.corner_window(0, 20) == 0b0010);
    assert!(game.corner_window(0, 21) == 1);
}

#[test]
fn check_place_off_corner_one() {
    // Take the
    // X
    // piece
    let piece = 0;

    // Place it at (1, 1)
    let mut game = State::new(20, 20);
    assert!(game.check());
    game.place_piece(&Player::Player1, &Move::new(piece, (1, 1)));
    assert!(game.check());

    // The exclusion windows at the top left should look like
    // (0, 0):
    // 0010
    // 0111
    // 0010
    // 0000
    assert!(game.occupied_window(0, 0) == 0b001001110010);
    assert!(game.occupied_window(0, 1) == 0b000100110001);
    assert!(game.occupied_window(0, 2) == 0b00010000);
    assert!(game.occupied_window(0, 20) == 0b00100111);
    assert!(game.occupied_window(0, 21) == 0b00010011);
    assert!(game.occupied_window(0, 22) == 1);
    assert!(game.occupied_window(0, 40) == 0b0010);
    assert!(game.occupied_window(0, 41) == 1);
    assert!(game.occupied_window(1, 0) == 0b00100000);
    assert!(game.occupied_window(2, 0) == 0b00100000);
    assert!(game.occupied_window(3, 0) == 0b00100000);
    // Corner windows: the four diagonal candidates, plus the starting
    // corner bit at (0, 0)
    assert!(game.corner_window(0, 0) == 0b010100000101);
    assert!(game.corner_window(0, 1) == 0b001000000010);
    assert!(game.corner_window(0, 2) == 0b000100000001);
    assert!(game.corner_window(0, 20) == 0b01010000);
    assert!(game.corner_window(0, 21) == 0b00100000);
    assert!(game.corner_window(0, 22) == 0b00010000);
    assert!(game.corner_window(0, 40) == 0b0101);
    assert!(game.corner_window(0, 41) == 0b0010);
    assert!(game.corner_window(0, 42) == 1);
}

#[test]
fn check_place_corner_wide() {
    // Take the
    // XXXXX
    // piece
    let piece = 89;

    let mut game = State::new(20, 20);
    assert!(game.check());
    game.place_piece(&Player::Player1, &Move::new(piece, (1, 1)));
    assert!(game.check());

    // The second player sees the five occupied cells
    assert!(game.occupied_window(1, 0) == 0b11100000);
    assert!(game.occupied_window(1, 1) == 0b11110000);
    assert!(game.occupied_window(1, 2) == 0b11110000);
    assert!(game.occupied_window(1, 3) == 0b01110000);

    // The placing player gains the four diagonal end candidates
    assert!(game.corner_window(0, 0) == 0b000100000001);
    assert!(game.corner_window(0, 1) == 0);
    assert!(game.corner_window(0, 2) == 0);
    assert!(game.corner_window(0, 3) == 0b100000001000);
}

#[test]
fn check_place_corner_tall() {
    // Take the
    // X
    // X
    // X
    // X
    // X
    // piece
    let piece = 90;

    let mut game = State::new(20, 20);
    assert!(game.check());
    game.place_piece(&Player::Player1, &Move::new(piece, (1, 1)));
    assert!(game.check());

    assert!(game.occupied_window(1, 0) == 0b0010001000100000);
    assert!(game.occupied_window(1, 20) == 0b0010001000100010);
    assert!(game.occupied_window(1, 40) == 0b0010001000100010);
    assert!(game.occupied_window(1, 60) == 0b0000001000100010);

    assert!(game.corner_window(0, 0) == 0b101);
    assert!(game.corner_window(0, 20) == 0);
    assert!(game.corner_window(0, 40) == 0);
    assert!(game.corner_window(0, 60) == 0b101000000000000);
}

#[test]
fn windowed_playout_stays_conformal() {
    // a single player plays greedily until passing; after every
    // placement all windows agree on every shared cell
    let mut game = State::new(20, 20);
    let p1 = Player::Player1;
    let mut rounds = 0;
    loop {
        let moves = game.get_moves(&p1);
        if moves.is_empty() {
            break;
        }
        game.place_piece(&p1, &moves[0]);
        assert!(game.check());
        rounds += 1;
        assert!(rounds <= 21);
    }
    // every remaining candidate was consumed or blocked
    assert!(game.get_moves(&p1).is_empty());
}

#[test]
fn windowed_piece_sizes() {
    assert_eq!(piece_size(&Move::new(0, (0, 0))), 1);
    assert_eq!(piece_size(&Move::new(2, (0, 0))), 2);
    assert_eq!(piece_size(&Move::new(8, (0, 0))), 3);
    assert_eq!(piece_size(&Move::new(27, (0, 0))), 4);
    assert_eq!(piece_size(&Move::new(89, (0, 0))), 5);
    assert_eq!(piece_size(&Move::new(90, (0, 0))), 5);
}

#[test]
fn check_place_bl_one() {
    // Take the
    // X
    // piece
    let piece = 0;

    // Place it in the bottom right at (19, 19)
    let mut game = State::new(20, 20);
    assert!(game.check());
    game.place_piece(&Player::Player1, &Move::new(piece, (19, 19)));
    // Make sure all the masks are valid
    assert!(game.check());

    // The exclusion windows at the bottom right combine the board
    // border, the placed cell and its halo
    assert!(game.occupied_window(0, 399) == u16::MAX);
    assert!(game.occupied_window(0, 398) == u16::MAX);
    assert!(game.occupied_window(0, 397) == u16::MAX - 1);
    assert!(game.occupied_window(0, 396) == u16::MAX - 3);
    assert!(game.occupied_window(0, 395) == u16::MAX - 7);
    assert!(game.occupied_window(0, 379) == u16::MAX);
    assert!(game.occupied_window(0, 378) == u16::MAX - 1);
    assert!(game.occupied_window(0, 377) == 0b1111111111101100);
    assert!(game.occupied_window(0, 376) == 0b1111111111001000);
    assert!(game.occupied_window(0, 375) == 0b1111111110000000);
    assert!(game.occupied_window(0, 359) == u16::MAX - 1);
    assert!(game.occupied_window(0, 358) == 0b1111111111101100);
    assert!(game.occupied_window(0, 357) == 0b1111111011001000);

    // The only in-bounds diagonal candidate is (18, 18); candidates
    // beyond the board edge are dropped
    assert!(game.corner_window(0, 399) == 0);
    assert!(game.corner_window(0, 398) == 0);
    assert!(game.corner_window(0, 397) == 0);
    assert!(game.corner_window(0, 396) == 0);
    assert!(game.corner_window(0, 395) == 0);
    assert!(game.corner_window(0, 379) == 0);
    assert!(game.corner_window(0, 378) == 0b1);
    assert!(game.corner_window(0, 377) == 0b10);
    assert!(game.corner_window(0, 376) == 0b100);
    assert!(game.corner_window(0, 375) == 0b1000);
    assert!(game.corner_window(0, 359) == 0);
    assert!(game.corner_window(0, 358) == 0b10000);
    assert!(game.corner_window(0, 357) == 0b100000);
    assert!(game.corner_window(0, 356) == 0b1000000);
    assert!(game.corner_window(0, 339) == 0);
}

#[test]
#[allow(non_snake_case)]
fn check_place_corner_L() {
    // Take the
    // XX
    //  X
    // piece
    let piece = 5;

    // Place it in the top left at (0, 0)
    let mut game = State::new(20, 20);
    assert!(game.check());
    game.place_piece(&Player::Player1, &Move::new(piece, (0, 0)));
    // Make sure all the masks are valid
    assert!(game.check());

    assert!(game.occupied_window(0, 0) == 0b000100110111);
    assert!(game.occupied_window(0, 1) == 0b00010011);
    assert!(game.occupied_window(0, 20) == 0b00010011);
    assert!(game.occupied_window(0, 21) == 1);
    assert!(game.occupied_window(1, 0) == 0b00010011);
    assert!(game.occupied_window(2, 0) == 0b00010011);
    assert!(game.occupied_window(3, 0) == 0b00010011);
    // The covered starting corner is cleared; the diagonal candidates
    // (2, 1) and (1, 2) appear
    assert!(game.corner_window(0, 0) == 0b001001000000);
    assert!(game.corner_window(0, 1) == 0b000100100000);
    assert!(game.corner_window(0, 2) == 0b00010000);
    assert!(game.corner_window(0, 20) == 0b00100100);
    assert!(game.corner_window(0, 21) == 0b00010010);
    assert!(game.corner_window(0, 22) == 0b00000001);
    assert!(game.corner_window(0, 40) == 0b0010);
    assert!(game.corner_window(0, 41) == 0b0001);
}

#[test]
fn check_place_corner_fat_l() {
    // Take the
    // X
    // X
    // X
    // X
    // piece
    let piece = 10;

    let mut game = State::new(20, 20);
    assert!(game.check());
    game.place_piece(&Player::Player1, &Move::new(piece, (0, 16)));
    // Make sure all the masks are valid
    assert!(game.check());

    assert!(game.occupied_window(0, 19 * 20) == 0b1111111111110011);
    assert!(game.occupied_window(0, 18 * 20) == 0b1111111100110011);
    assert!(game.occupied_window(0, 17 * 20) == 0b1111001100110011);
    assert!(game.occupied_window(0, 16 * 20) == 0b0011001100110011);
    assert!(game.occupied_window(0, 15 * 20) == 0b0011001100110001);
    assert!(game.occupied_window(0, 14 * 20) == 0b0011001100010000);
    assert!(game.occupied_window(0, 13 * 20) == 0b0011000100000000);
    assert!(game.occupied_window(0, 12 * 20) == 0b0001000000000000);
    // The only in-bounds diagonal candidate is (1, 15); the candidate
    // below the board edge is dropped
    assert!(game.corner_window(0, 19 * 20) == 0);
    assert!(game.corner_window(0, 18 * 20) == 0);
    assert!(game.corner_window(0, 17 * 20) == 0);
    assert!(game.corner_window(0, 16 * 20) == 0);
    assert!(game.corner_window(0, 15 * 20) == 0b0000000000000010);
    assert!(game.corner_window(0, 14 * 20) == 0b0000000000100000);
    assert!(game.corner_window(0, 13 * 20) == 0b0000001000000000);
    assert!(game.corner_window(0, 12 * 20) == 0b0010000000000000);
    assert!(game.corner_window(0, 19 * 20 + 1) == 0);
    assert!(game.corner_window(0, 18 * 20 + 1) == 0);
    assert!(game.corner_window(0, 17 * 20 + 1) == 0);
    assert!(game.corner_window(0, 16 * 20 + 1) == 0);
    assert!(game.corner_window(0, 15 * 20 + 1) == 0b0000000000000001);
    assert!(game.corner_window(0, 14 * 20 + 1) == 0b0000000000010000);
    assert!(game.corner_window(0, 13 * 20 + 1) == 0b0000000100000000);
    assert!(game.corner_window(0, 12 * 20 + 1) == 0b0001000000000000);
}

#[test]
fn check_place_rand_tall() {
    // Take the
    // X
    // X
    // X
    // X
    // X
    // piece, away from any corner
    let piece = 90;

    let mut game = State::new(20, 20);
    assert!(game.check());
    game.place_piece(&Player::Player1, &Move::new(piece, (17, 9)));
    // Make sure all the masks are valid
    assert!(game.check());

    // The other players see exactly the five occupied cells
    for y in 0..20u16 {
        for x in 0..20u16 {
            let occupied = game.occupied_window(1, (y * 20 + x) as usize) & 1 == 1;
            assert_eq!(occupied, x == 17 && (9..14).contains(&y));
        }
    }
    // Raw windows at and below the piece combine it with the border
    // column
    assert!(game.occupied_window(1, 9 * 20 + 17) == 0x9999);
    assert!(game.occupied_window(1, 12 * 20 + 17) == 0b1000100010011001);

    // The placing player also excludes the orthogonal halo
    for &(hx, hy) in [(17, 8), (17, 14), (16, 9), (18, 13)].iter() {
        assert!(game.occupied_window(0, hy * 20 + hx) & 1 == 1);
    }
    // The four diagonal end candidates become anchors
    for &(cx, cy) in [(16, 8), (18, 8), (16, 14), (18, 14)].iter() {
        assert!(game.corner_window(0, cy * 20 + cx) & 1 == 1);
    }
    assert!(game.corner_window(0, 8 * 20 + 17) & 1 == 0);
    assert!(game.corner_window(0, 9 * 20 + 17) & 1 == 0);
}
