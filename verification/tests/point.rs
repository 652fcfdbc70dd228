use ahc019::Point;

#[test]
fn new_point_keeps_coordinates() {
    let p = Point::new(1, 2, 3);
    assert_eq!((p.x(), p.y(), p.z()), (1, 2, 3));
    assert_eq!(p, Point(1, 2, 3));
}

#[test]
fn points_order_by_x_then_y_then_z() {
    assert!(Point::new(0, 9, 9) < Point::new(1, 0, 0));
    assert!(Point::new(1, 0, 9) < Point::new(1, 1, 0));
    assert!(Point::new(1, 1, 0) < Point::new(1, 1, 1));
}

#[test]
fn next_cell_steps_along_each_direction() {
    let p = Point::new(2, 3, 4);
    assert_eq!(p.next_cell(6, 0), Some(Point::new(3, 3, 4)));
    assert_eq!(p.next_cell(6, 1), Some(Point::new(1, 3, 4)));
    assert_eq!(p.next_cell(6, 2), Some(Point::new(2, 4, 4)));
    assert_eq!(p.next_cell(6, 3), Some(Point::new(2, 2, 4)));
    assert_eq!(p.next_cell(6, 4), Some(Point::new(2, 3, 5)));
    assert_eq!(p.next_cell(6, 5), Some(Point::new(2, 3, 3)));
}

#[test]
fn next_cell_stops_at_the_upper_faces() {
    let p = Point::new(4, 4, 4);
    assert_eq!(p.next_cell(5, 0), None);
    assert_eq!(p.next_cell(5, 2), None);
    assert_eq!(p.next_cell(5, 4), None);
    assert_eq!(p.next_cell(5, 1), Some(Point::new(3, 4, 4)));
}

#[test]
fn next_cell_stops_at_the_lower_faces() {
    let p = Point::new(0, 0, 0);
    assert_eq!(p.next_cell(5, 1), None);
    assert_eq!(p.next_cell(5, 3), None);
    assert_eq!(p.next_cell(5, 5), None);
    assert_eq!(p.next_cell(5, 0), Some(Point::new(1, 0, 0)));
}

#[test]
fn next_cell_knows_six_directions_only() {
    let p = Point::new(1, 1, 1);
    assert_eq!(p.next_cell(5, 6), None);
    assert_eq!(p.next_cell(5, 255), None);
}

#[test]
fn opposite_directions_undo_each_other() {
    let p = Point::new(3, 3, 3);
    for dir in 0..6u8 {
        let q = p.next_cell(7, dir).unwrap();
        assert_eq!(q.next_cell(7, dir ^ 1), Some(p));
        assert_eq!(ahc019::point::flip(dir), dir ^ 1);
    }
}

#[test]
fn a_grid_of_one_voxel_has_no_neighbours() {
    let p = Point::new(0, 0, 0);
    for dir in 0..6u8 {
        assert_eq!(p.next_cell(1, dir), None);
    }
}
