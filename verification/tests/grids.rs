use ahc019::{Grid3, GridFront, GridRight, Point};

#[test]
fn grid3_new_fills_every_voxel() {
    let g: Grid3<u16> = Grid3::new(3, 7);
    assert_eq!(g.data.len(), 27);
    assert!(g.data.iter().all(|&v| v == 7));
    let empty: Grid3<u16> = Grid3::new(0, 7);
    assert_eq!(empty.data.len(), 0);
}

#[test]
fn grid3_index_is_x_major() {
    let g: Grid3<u8> = Grid3::new(4, 0);
    assert_eq!(g.at(Point::new(0, 0, 0)), 0);
    assert_eq!(g.at(Point::new(0, 0, 3)), 3);
    assert_eq!(g.at(Point::new(0, 1, 0)), 4);
    assert_eq!(g.at(Point::new(1, 0, 0)), 16);
    assert_eq!(g.at(Point::new(3, 2, 1)), (3 * 4 + 2) * 4 + 1);
}

#[test]
fn grid3_set_then_get() {
    let mut g: Grid3<u16> = Grid3::new(3, 0);
    g.set(Point::new(1, 2, 0), 9);
    assert_eq!(g.get(Point::new(1, 2, 0)), 9);
    assert_eq!(g.get(Point::new(2, 1, 0)), 0);
    assert_eq!(g.data.iter().filter(|&&v| v == 9).count(), 1);
    assert_eq!(g.data[(1 * 3 + 2) * 3], 9);
}

#[test]
fn front_plane_is_indexed_by_x_then_z() {
    let data: Vec<u8> = (0..9).collect();
    let f = GridFront::from_vec(3, data);
    assert_eq!(f.at(Point::new(2, 1, 0)), 6);
    assert_eq!(f.at(Point::new(1, 0, 2)), 5);
    assert_eq!(f.get(1, 2), 5);
    assert_eq!(f.get(2, 0), 6);
}

#[test]
fn right_plane_is_indexed_by_z_then_y() {
    let data: Vec<u8> = (0..9).collect();
    let r = GridRight::from_vec(3, data);
    assert_eq!(r.at(Point::new(0, 1, 2)), 7);
    assert_eq!(r.get(1, 2), 7);
    assert_eq!(r.get(2, 0), 2);
}

#[test]
fn right_plane_rows_run_over_y() {
    let data: Vec<u8> = (0..9).collect();
    let r = GridRight::from_vec(3, data);
    assert_eq!(r.row(0), &[0, 1, 2]);
    assert_eq!(r.row(2), &[6, 7, 8]);
}

#[test]
fn planes_set_then_get() {
    let mut f = GridFront::from_vec(2, vec![0u8; 4]);
    f.set(1, 0, 5);
    assert_eq!(f.data, vec![0, 0, 5, 0]);
    let mut r = GridRight::from_vec(2, vec![0u8; 4]);
    r.set(1, 0, 5);
    assert_eq!(r.data, vec![0, 5, 0, 0]);
}
