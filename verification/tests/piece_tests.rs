use blokus_ai::mask::Mask;
use blokus_ai::piece::{flip, rotate, transform, Piece, TransformedPiece};
use blokus_ai::utils::{Reflection, Rotation, Transformation};

#[test]
fn test_rotate() {
    // 01
    // 11
    let mask = Mask::new(2, vec![0x01, 0x11]);
    let rotated = rotate(&mask);
    // 10
    // 11
    assert!(rotated.same_as(&Mask::new(2, vec![0x10, 0x11])));

    // 011
    // 110
    let mask = Mask::new(3, vec![0x011, 0x110]);
    let rotated = rotate(&mask);
    // 10
    // 11
    // 01
    assert!(rotated.same_as(&Mask::new(2, vec![0x10, 0x11, 0x01])));
}

#[test]
fn piece_test_rotate() {
    let mask = Mask::new(2, vec![0x01, 0x11]);
    let rotated = rotate(&mask);
    assert!(rotated.same_as(&Mask::new(2, vec![0x10, 0x11])));

    let mask = Mask::new(3, vec![0x011, 0x110]);
    let rotated = rotate(&mask);
    assert!(rotated.same_as(&Mask::new(2, vec![0x10, 0x11, 0x01])));
}

#[test]
fn test_flip() {
    let mask = Mask::new(2, vec![0x01, 0x11]);
    let flipped = flip(mask);
    assert!(flipped.same_as(&Mask::new(2, vec![0x11, 0x01])));
}

#[test]
fn piece_test_flip() {
    let mask = Mask::new(2, vec![0x01, 0x11]);
    let flipped = flip(mask);
    assert!(flipped.same_as(&Mask::new(2, vec![0x11, 0x01])));
}

#[test]
fn test_transform() {
    let mask = Mask::new(2, vec![0x01, 0x11]);
    let transformation = Transformation(Rotation::OneEighty, Reflection::Flip);
    // 01
    // 11
    // ->
    // 11
    // 10
    // ->
    // 10
    // 11
    let transformed = transform(transformation, &mask);
    assert!(transformed.same_as(&Mask::new(2, vec![0x10, 0x11])));
}

#[test]
fn piece_test_transform() {
    let mask = Mask::new(2, vec![0x01, 0x11]);
    let transformation = Transformation(Rotation::OneEighty, Reflection::Flip);
    let transformed = transform(transformation, &mask);
    assert!(transformed.same_as(&Mask::new(2, vec![0x10, 0x11])));
}

#[test]
fn test_unique_transformation_count() {
    let mask = Mask::new(3, vec![0x010, 0x111, 0x010]);
    let piece = Piece::new(mask);
    assert_eq!(piece.versions.len(), 1);

    let mask = Mask::new(2, vec![0x01, 0x11]);
    let piece = Piece::new(mask);
    assert_eq!(piece.versions.len(), 4);

    let mask = Mask::new(3, vec![0x011, 0x110]);
    let piece = Piece::new(mask);
    assert_eq!(piece.versions.len(), 4);

    let mask = Mask::new(3, vec![0x100, 0x111]);
    let piece = Piece::new(mask);
    assert_eq!(piece.versions.len(), 8);
}

#[test]
fn piece_test_unique_transformation_count() {
    let mask = Mask::new(3, vec![0x010, 0x111, 0x010]);
    let piece = Piece::new(mask);
    assert_eq!(piece.versions.len(), 1);

    let mask = Mask::new(2, vec![0x01, 0x11]);
    let piece = Piece::new(mask);
    assert_eq!(piece.versions.len(), 4);

    let mask = Mask::new(3, vec![0x011, 0x110]);
    let piece = Piece::new(mask);
    assert_eq!(piece.versions.len(), 4);

    let mask = Mask::new(3, vec![0x100, 0x111]);
    let piece = Piece::new(mask);
    assert_eq!(piece.versions.len(), 8);
}

#[test]
fn straight_pieces_have_two_variants() {
    // every straight piece of length two to four has exactly two
    // distinct dihedral images
    let piece = Piece::new(Mask::new(2, vec![0x11]));
    assert_eq!(piece.versions.len(), 2);
    let piece = Piece::new(Mask::new(3, vec![0x111]));
    assert_eq!(piece.versions.len(), 2);
    let piece = Piece::new(Mask::new(4, vec![0x1111]));
    assert_eq!(piece.versions.len(), 2);
}

fn eq_orderless<T>(a: &[T], b: &[T])
where
    T: Eq + Ord + std::fmt::Debug + Clone,
{
    let mut a = a.to_owned();
    let mut b = b.to_owned();
    a.sort();
    b.sort();
    assert_eq!(a, b);
}

#[test]
fn test_transformed_pieces() {
    let mask = Mask::new(2, vec![0x01, 0x11]);
    let transformed_piece = TransformedPiece::new(mask);

    const REPEAT: Vec<(i8, i8)> = Vec::new();
    let mut expected_corners = [REPEAT; 4];
    // Pos Pos corners are here:
    //  01
    //  X1
    expected_corners[0].extend(vec![(1, 1)]);
    // Neg Pos corners are here:
    //  01
    //  1X
    expected_corners[1].extend(vec![(0, 1)]);
    // Pos Neg corners are here:
    //  0X
    //  X1
    expected_corners[2].extend(vec![(0, 0), (1, 1)]);

    // Neg Neg corners are here:
    //  0X
    //  11
    expected_corners[3].extend(vec![(0, 0)]);

    for (corner, expected) in transformed_piece
        .corners
        .iter()
        .zip(expected_corners.iter())
    {
        eq_orderless(corner, expected);
    }

    let mask = Mask::new(3, vec![0x010, 0x111, 0x010]);
    let transformed_piece = TransformedPiece::new(mask);

    let mut expected_corners = [REPEAT; 4];
    // Pos Pos corners are here:
    //  010
    //  X11
    //  0X0
    expected_corners[0].extend(vec![(2, 1), (1, 2)]);

    // Neg Pos corners are here:
    //  010
    //  11X
    //  0X0
    expected_corners[1].extend(vec![(0, 1), (1, 2)]);

    // Pos Neg corners are here:
    //  0X0
    //  X11
    //  010
    expected_corners[2].extend(vec![(1, 0), (2, 1)]);

    // Neg Neg corners are here:
    //  0X0
    //  11X
    //  010
    expected_corners[3].extend(vec![(1, 0), (0, 1)]);

    for (corner, expected) in transformed_piece
        .corners
        .iter()
        .zip(expected_corners.iter())
    {
        eq_orderless(corner, expected);
    }
}

#[test]
fn neighbor_mask_of_single_tile() {
    let mask = Mask::new(1, vec![0x1]);
    let tp = TransformedPiece::new(mask);
    // the halo of a single tile: its own cell as F, the four
    // orthogonal neighbors in the piece's color
    assert_eq!(*tp.neighbor_mask.iter(), vec![0x010, 0x1f1, 0x010]);
}
