use diomanim::atlas::ShelfPacker;

#[test]
fn boxes_fill_a_row_then_wrap() {
    let mut p = ShelfPacker::new(10, 10);
    assert_eq!(p.place(4, 3), Some((0, 0)));
    assert_eq!(p.place(6, 2), Some((4, 0)));
    assert_eq!(p.place(1, 1), Some((0, 3)));
    assert_eq!(p.atlas_width(), 10);
    assert_eq!(p.atlas_height(), 10);
}

#[test]
fn a_box_past_the_bottom_does_not_fit() {
    let mut p = ShelfPacker::new(10, 5);
    assert_eq!(p.place(10, 4), Some((0, 0)));
    assert_eq!(p.place(3, 2), None);
    // the move to a new row is kept: a short box still fits there
    assert_eq!(p.place(3, 1), Some((0, 4)));
}

#[test]
fn a_box_wider_than_the_atlas_gets_its_own_row() {
    let mut p = ShelfPacker::new(4, 100);
    assert_eq!(p.place(2, 5), Some((0, 0)));
    assert_eq!(p.place(9, 7), Some((0, 5)));
    assert_eq!(p.place(1, 1), Some((0, 12)));
}
