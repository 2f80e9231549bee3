use blokus_ai::windowed::piece::Piece;

#[test]
fn test_neighbor_mask() {
    let piece = Piece::new(3, 3, 0, [0b110, 0b010, 0b011, 0]);
    println!("{:?}", piece.neighbor_mask);

    let expected = [0b01100, 0b11110, 0b01110, 0b01111, 0b00110, 0];

    assert!(piece
        .neighbor_mask
        .iter()
        .zip(expected.iter())
        .all(|(a, b)| a == b));
}

#[test]
fn test_neighbor_mask_one() {
    let piece = Piece::new(1, 1, 0, [1, 0, 0, 0]);
    println!("{:?}", piece.neighbor_mask);

    let expected = [0b010, 0b111, 0b010, 0, 0, 0];

    assert!(piece
        .neighbor_mask
        .iter()
        .zip(expected.iter())
        .all(|(a, b)| a == b));
}

#[test]
fn test_corner_mask_one() {
    let piece = Piece::new(1, 1, 0, [1, 0, 0, 0]);
    println!("{:?}", piece.corner_mask);

    let expected = [0b101, 0, 0b101, 0, 0, 0];

    assert!(piece
        .corner_mask
        .iter()
        .zip(expected.iter())
        .all(|(a, b)| a == b));
}

#[test]
fn test_corner_mask_l() {
    // Piece has these corners:
    // -  -
    //  XX
    // - X
    //  - -
    let piece = Piece::new(2, 2, 0, [0b11, 0b01, 0, 0]);
    println!("{:?}", piece.corner_mask);

    let expected = [0b1001, 0, 0b1000, 0b101, 0, 0];

    assert!(piece
        .corner_mask
        .iter()
        .zip(expected.iter())
        .all(|(a, b)| a == b));
}

#[test]
fn packed_occupancy() {
    let piece = Piece::new(3, 3, 0, [0b110, 0b010, 0b011, 0]);
    assert_eq!(piece.as_u16, 0b0000_0011_0010_0110);
    // bits outside the bounding box are ignored
    let clipped = Piece::new(2, 1, 0, [0b111, 0b1, 0, 0]);
    assert_eq!(clipped.as_u16, 0b11);
}
