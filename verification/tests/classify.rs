use ahc019::{GridBox, Point};
use rand_pcg::Mcg128Xsl64;

fn image(rows: &[&str]) -> Vec<Vec<u8>> {
    rows.iter().map(|r| r.as_bytes().to_vec()).collect()
}

fn cube(d: u8) -> GridBox {
    let row = "1".repeat(d as usize);
    let rows: Vec<&str> = (0..d).map(|_| row.as_str()).collect();
    GridBox::new(d, &image(&rows), &image(&rows))
}

#[test]
fn fresh_box_has_every_usable_voxel_doubly_uncovered() {
    let b = cube(2);
    let hole = b.make_hole();
    let yet = b.make_yet_points(&hole.x_z_yy);
    assert_eq!(
        yet.yet_yet.to_vec(),
        vec![
            Point::new(0, 0, 0),
            Point::new(0, 1, 0),
            Point::new(0, 0, 1),
            Point::new(0, 1, 1),
            Point::new(1, 0, 0),
            Point::new(1, 1, 0),
            Point::new(1, 0, 1),
            Point::new(1, 1, 1),
        ]
    );
    assert!(yet.yet.to_vec().is_empty());
    assert!(yet.can.to_vec().is_empty());
    assert!(!yet.satisfied());
}

#[test]
fn less_urgent_classes_stop_at_the_first_more_urgent_voxel() {
    let mut b = cube(2);
    let hole = b.make_hole();
    b.put(Point::new(0, 0, 0), 1);
    let yet = b.make_yet_points(&hole.x_z_yy);
    assert_eq!(yet.yet.to_vec(), vec![Point::new(0, 1, 0)]);
    assert_eq!(
        yet.yet_yet.to_vec(),
        vec![
            Point::new(0, 0, 1),
            Point::new(0, 1, 1),
            Point::new(1, 1, 0),
            Point::new(1, 0, 1),
            Point::new(1, 1, 1),
        ]
    );
    assert!(yet.can.to_vec().is_empty());
}

#[test]
fn covered_box_offers_its_empty_voxels() {
    let mut b = cube(2);
    let hole = b.make_hole();
    b.put(Point::new(0, 0, 0), 1);
    b.put(Point::new(1, 1, 0), 1);
    b.put(Point::new(0, 0, 1), 2);
    b.put(Point::new(1, 1, 1), 2);
    let yet = b.make_yet_points(&hole.x_z_yy);
    assert!(yet.satisfied());
    assert!(yet.yet_yet.to_vec().is_empty());
    assert!(yet.yet.to_vec().is_empty());
    assert_eq!(
        yet.can.to_vec(),
        vec![Point::new(0, 1, 0), Point::new(0, 1, 1), Point::new(1, 0, 0), Point::new(1, 0, 1)]
    );
}

#[test]
fn classes_fill_in_the_order_of_the_hole() {
    let mut b = cube(2);
    let hole = b.make_hole();
    b.put(Point::new(0, 0, 0), 1);
    b.put(Point::new(1, 1, 0), 1);
    b.put(Point::new(0, 0, 1), 2);
    let yet = b.make_yet_points(&hole.x_z_yy);
    assert!(!yet.satisfied());
    assert_eq!(yet.can.to_vec(), vec![Point::new(0, 1, 0)]);
    assert_eq!(yet.yet.to_vec(), vec![Point::new(0, 1, 1), Point::new(1, 0, 1)]);
    assert_eq!(yet.yet_yet.to_vec(), vec![Point::new(1, 1, 1)]);
}

#[test]
fn singly_uncovered_voxels_keep_the_box_unsatisfied() {
    let mut b = cube(2);
    let hole = b.make_hole();
    b.put(Point::new(0, 0, 0), 1);
    b.put(Point::new(1, 1, 0), 1);
    b.put(Point::new(0, 0, 1), 2);
    b.put(Point::new(1, 0, 1), 2);
    let yet = b.make_yet_points(&hole.x_z_yy);
    assert!(!yet.satisfied());
    assert!(yet.yet_yet.to_vec().is_empty());
    assert_eq!(yet.yet.to_vec(), vec![Point::new(0, 1, 1), Point::new(1, 1, 1)]);
    assert_eq!(yet.can.to_vec(), vec![Point::new(0, 1, 0)]);
}

#[test]
fn full_box_is_satisfied_and_offers_nothing() {
    let mut b = cube(2);
    let hole = b.make_hole();
    for x in 0..2 {
        for y in 0..2 {
            for z in 0..2 {
                b.put(Point::new(x, y, z), 1);
            }
        }
    }
    let yet = b.make_yet_points(&hole.x_z_yy);
    assert!(yet.satisfied());
    let mut rng = Mcg128Xsl64::new(1);
    assert_eq!(yet.chose(&mut rng), None);
}

#[test]
fn box_without_usable_voxels_is_satisfied() {
    let b = GridBox::new(2, &image(&["00", "00"]), &image(&["00", "00"]));
    let hole = b.make_hole();
    let yet = b.make_yet_points(&hole.x_z_yy);
    assert!(yet.satisfied());
    let mut rng = Mcg128Xsl64::new(1);
    assert_eq!(yet.chose(&mut rng), None);
}

#[test]
fn chose_takes_from_the_most_urgent_class() {
    let mut b = cube(2);
    let hole = b.make_hole();
    b.put(Point::new(0, 0, 0), 1);
    let yet = b.make_yet_points(&hole.x_z_yy);
    let urgent = yet.yet_yet.to_vec();
    for seed in 0..50 {
        let mut rng = Mcg128Xsl64::new(seed);
        let p = yet.chose(&mut rng).unwrap();
        assert!(urgent.contains(&p));
    }
}

#[test]
fn chose_falls_back_to_the_next_class() {
    let mut b = cube(2);
    let hole = b.make_hole();
    b.put(Point::new(0, 0, 0), 1);
    b.put(Point::new(1, 1, 0), 1);
    b.put(Point::new(0, 0, 1), 2);
    b.put(Point::new(1, 0, 1), 2);
    let yet = b.make_yet_points(&hole.x_z_yy);
    let mut rng = Mcg128Xsl64::new(3);
    let p = yet.chose(&mut rng).unwrap();
    assert!(p == Point::new(0, 1, 1) || p == Point::new(1, 1, 1));
    b.put(Point::new(1, 1, 1), 2);
    let last = b.make_yet_points(&hole.x_z_yy);
    assert!(last.satisfied());
    let optional = last.can.to_vec();
    assert_eq!(optional, vec![Point::new(0, 1, 0), Point::new(0, 1, 1), Point::new(1, 0, 0)]);
    assert!(optional.contains(&last.chose(&mut rng).unwrap()));
}

#[test]
fn chose_reaches_every_voxel_of_the_class() {
    let b = cube(2);
    let hole = b.make_hole();
    let yet = b.make_yet_points(&hole.x_z_yy);
    let mut seen = Vec::new();
    for seed in 0..400 {
        let mut rng = Mcg128Xsl64::new(seed);
        let p = yet.chose(&mut rng).unwrap();
        if !seen.contains(&p) {
            seen.push(p);
        }
    }
    assert_eq!(seen.len(), 8);
}
