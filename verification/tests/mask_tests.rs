use blokus_ai::mask::Mask;

#[test]
fn mask_test_mask() {
    // 1010
    // 0101
    let mask1 = Mask::new(4, vec![0x1010, 0x0101]);
    // 1100
    // 0011
    let mask2 = Mask::new(4, vec![0x1100, 0x0011]);

    let pos = (0, 0);

    // 1110
    // 0111
    let or = mask1.or(&mask2, pos);

    assert_eq!(*or.iter(), vec![0x1110, 0x0111]);

    let pos = (1, 0);

    // 1010
    // 0111
    let or = mask1.or(&mask2, pos);

    assert_eq!(*or.iter(), vec![0x1010, 0x0111]);

    // test negative y and x

    let pos = (-1, -1);

    // 1011
    // 0101
    let or = mask1.or(&mask2, pos);

    assert_eq!(*or.iter(), vec![0x1011, 0x0101]);
}

#[test]
fn mask_cells_and_dims() {
    let mask = Mask::new(3, vec![0x010, 0x1f1, 0x010]);
    assert_eq!(mask.w(), 3);
    assert_eq!(mask.h(), 3);
    assert_eq!(mask.get(0, 1), Some(0x1));
    assert_eq!(mask.get(1, 1), Some(0xf));
    assert_eq!(mask.get(2, 1), Some(0x1));
    assert_eq!(mask.get(1, 0), Some(0x1));
    assert_eq!(mask.get(3, 0), None);
    assert_eq!(mask.get_i8(-1, 0), None);
    assert_eq!(mask.get_i32(1, 2), Some(0x1));
}

#[test]
fn mask_set_and_overlap() {
    let mut mask = Mask::new(2, vec![0x00, 0x00]);
    assert!(mask.empty());
    mask.set(0, 0, 0x2);
    mask.set_unchecked(1, 1, 0x4);
    assert!(!mask.empty());
    assert_eq!(mask.get(0, 0), Some(0x2));
    assert_eq!(mask.get(1, 1), Some(0x4));

    let other = Mask::new(2, vec![0x02, 0x00]);
    // other's set cell lands on (0, 0), which holds the same color bit
    assert!(!mask.no_overlap(&other, (0, 0)));
    // shifted one column right it meets only empty cells
    assert!(mask.no_overlap(&other, (1, 0)));
}

#[test]
fn mask_test_and() {
    // 1010
    // 0101
    let mask1 = Mask::new(4, vec![0x1010, 0x0101]);
    // 1100
    // 0011
    let mask2 = Mask::new(4, vec![0x1100, 0x0011]);

    // 1000
    // 0001
    let and = mask1.and(&mask2, (0, 0));
    assert_eq!(*and.iter(), vec![0x1000, 0x0001]);

    // 1000
    // 0100
    let and = mask1.and(&mask2, (1, 0));
    assert_eq!(*and.iter(), vec![0x1000, 0x0100]);

    // 0000
    let and = mask1.and(&mask2, (-1, -1));
    assert_eq!(*and.iter(), vec![0x000]);
}
