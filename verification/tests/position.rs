use edcore::position::Point;

#[test]
fn point_new_and_accessors() {
    let p = Point::new(3, 7);
    assert_eq!(p.x(), 3);
    assert_eq!(p.y(), 7);
    assert_eq!(p.into_inner(), (3, 7));
}

#[test]
fn point_setters_move_one_axis() {
    let mut p = Point::new(1, 2);
    p.set_x(9);
    assert_eq!(p.into_inner(), (9, 2));
    p.set_y(4);
    assert_eq!(p.into_inner(), (9, 4));
}

#[test]
fn point_default_is_origin() {
    let p = Point::default();
    assert_eq!(p.into_inner(), (0, 0));
}
