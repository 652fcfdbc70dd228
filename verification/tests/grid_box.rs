use ahc019::{make_face, GridBox, Point};

fn image(rows: &[&str]) -> Vec<Vec<u8>> {
    rows.iter().map(|r| r.as_bytes().to_vec()).collect()
}

fn cube(d: u8) -> GridBox {
    let row = "1".repeat(d as usize);
    let rows: Vec<&str> = (0..d).map(|_| row.as_str()).collect();
    GridBox::new(d, &image(&rows), &image(&rows))
}

#[test]
fn make_face_row_by_row() {
    assert_eq!(make_face(&image(&["10", "11"]), true), vec![0, 255, 0, 0]);
}

#[test]
fn make_face_transposed() {
    assert_eq!(make_face(&image(&["10", "11"]), false), vec![0, 0, 255, 0]);
}

#[test]
fn make_face_of_nothing() {
    assert_eq!(make_face(&image(&[]), true), Vec::<u8>::new());
    assert_eq!(make_face(&image(&["000", "000", "000"]), false), vec![255; 9]);
}

#[test]
fn make_face_reads_short_rows_as_off() {
    assert_eq!(make_face(&image(&["1", "11"]), true), vec![0, 255, 0, 0]);
}

#[test]
fn new_box_forbids_what_an_off_cell_hides() {
    let b = GridBox::new(2, &image(&["10", "10"]), &image(&["10", "10"]));
    assert_eq!(b.d, 2);
    assert_eq!(b.label(Point::new(0, 0, 0)), 0);
    assert_eq!(b.label(Point::new(0, 0, 1)), 0);
    assert_eq!(b.grid.data.iter().filter(|&&l| l == 0xFFFF).count(), 6);
    assert_eq!(b.front.data, vec![0, 0, 255, 255]);
    assert_eq!(b.right.data, vec![0, 255, 0, 255]);
}

#[test]
fn new_box_reads_the_front_image_by_z_and_x() {
    let b = GridBox::new(2, &image(&["01", "00"]), &image(&["11", "11"]));
    assert_eq!(b.front.get(1, 0), 0);
    assert_eq!(b.front.get(0, 0), 255);
    assert_eq!(b.front.get(1, 1), 255);
    assert_eq!(b.label(Point::new(1, 0, 0)), 0);
    assert_eq!(b.label(Point::new(1, 1, 0)), 0);
    assert_eq!(b.label(Point::new(0, 0, 0)), 0xFFFF);
    assert_eq!(b.label(Point::new(1, 0, 1)), 0xFFFF);
}

#[test]
fn new_box_reads_the_right_image_by_z_and_y() {
    let b = GridBox::new(2, &image(&["11", "11"]), &image(&["00", "01"]));
    assert_eq!(b.right.get(1, 1), 0);
    assert_eq!(b.right.get(0, 1), 255);
    assert_eq!(b.right.get(1, 0), 255);
    assert_eq!(b.label(Point::new(0, 1, 1)), 0);
    assert_eq!(b.label(Point::new(1, 1, 1)), 0);
    assert_eq!(b.label(Point::new(0, 0, 1)), 0xFFFF);
    assert_eq!(b.label(Point::new(0, 1, 0)), 0xFFFF);
}

#[test]
fn new_box_without_voxels() {
    let b = GridBox::new(0, &image(&[]), &image(&[]));
    assert_eq!(b.grid.data.len(), 0);
    assert_eq!(b.front.data.len(), 0);
}

#[test]
fn put_labels_the_voxel_and_counts_it() {
    let mut b = cube(3);
    b.put(Point::new(1, 2, 0), 7);
    assert_eq!(b.label(Point::new(1, 2, 0)), 7);
    assert_eq!(b.front.get(1, 0), 1);
    assert_eq!(b.right.get(2, 0), 1);
    b.put(Point::new(1, 0, 0), 8);
    assert_eq!(b.front.get(1, 0), 2);
    assert_eq!(b.right.get(0, 0), 1);
    assert_eq!(b.right.get(2, 0), 1);
    assert_eq!(b.front.data.iter().map(|&c| c as u32).sum::<u32>(), 2);
    assert_eq!(b.right.data.iter().map(|&c| c as u32).sum::<u32>(), 2);
}

#[test]
fn every_voxel_of_a_block_is_counted_in_both_planes() {
    let mut b = cube(3);
    let voxels = [Point::new(0, 0, 0), Point::new(0, 1, 0), Point::new(0, 1, 1), Point::new(2, 2, 2)];
    for &p in voxels.iter() {
        b.put(p, 3);
    }
    for x in 0..3 {
        for y in 0..3 {
            for z in 0..3 {
                if b.label(Point::new(x, y, z)) == 3 {
                    assert!(b.front.get(x, z) >= 1);
                    assert!(b.right.get(y, z) >= 1);
                }
            }
        }
    }
}

#[test]
fn counters_count_the_voxels_of_their_column() {
    let mut b = cube(3);
    for y in 0..3 {
        b.put(Point::new(1, y, 2), 5);
    }
    assert_eq!(b.front.get(1, 2), 3);
    for y in 0..3 {
        assert_eq!(b.right.get(y, 2), 1);
    }
}

#[test]
fn remove_empties_the_voxel_and_uncounts_it() {
    let mut b = cube(2);
    b.put(Point::new(0, 1, 1), 2);
    b.put(Point::new(1, 1, 1), 2);
    b.remove(Point::new(0, 1, 1));
    assert_eq!(b.label(Point::new(0, 1, 1)), 0);
    assert_eq!(b.label(Point::new(1, 1, 1)), 2);
    assert_eq!(b.front.get(0, 1), 0);
    assert_eq!(b.front.get(1, 1), 1);
    assert_eq!(b.right.get(1, 1), 1);
}

#[test]
fn put_then_remove_changes_nothing() {
    let mut b = GridBox::new(3, &image(&["110", "011", "111"]), &image(&["101", "111", "010"]));
    b.put(Point::new(0, 0, 0), 4);
    let before = b.clone();
    b.put(Point::new(1, 1, 1), 9);
    assert_ne!(b, before);
    b.remove(Point::new(1, 1, 1));
    assert_eq!(b, before);
}

#[test]
fn hole_lists_what_may_be_used() {
    let b = GridBox::new(2, &image(&["10", "10"]), &image(&["10", "10"]));
    let hole = b.make_hole();
    assert_eq!(hole.grid, vec![0, 1]);
    assert_eq!(hole.front, vec![0, 1]);
    assert_eq!(hole.right, vec![0, 2]);
    assert_eq!(hole.x_z_yy, vec![(0, 0, vec![0]), (0, 1, vec![0])]);
}

#[test]
fn hole_columns_run_over_x_then_z_then_y() {
    let b = GridBox::new(2, &image(&["11", "01"]), &image(&["01", "11"]));
    assert_eq!(
        b.make_hole_xzy(),
        vec![(0, 0, vec![1]), (1, 0, vec![1]), (1, 1, vec![0, 1])]
    );
}

#[test]
fn hole_keeps_a_column_without_usable_voxels() {
    let b = GridBox::new(2, &image(&["10", "00"]), &image(&["00", "11"]));
    assert_eq!(b.make_hole_xzy(), vec![(0, 0, vec![])]);
    assert_eq!(b.make_hole().grid, Vec::<usize>::new());
}

#[test]
fn reset_restores_the_state_after_construction() {
    let fresh = GridBox::new(3, &image(&["110", "011", "111"]), &image(&["101", "111", "010"]));
    let hole = fresh.make_hole();
    let mut b = fresh.clone();
    let mut id = 1;
    for &i in hole.grid.iter() {
        let p = Point::new((i / 9) as u8, (i / 3 % 3) as u8, (i % 3) as u8);
        b.put(p, id);
        id += 1;
    }
    assert_ne!(b, fresh);
    b.reset(&hole);
    assert_eq!(b, fresh);
}

#[test]
fn reset_of_a_fresh_box_changes_nothing() {
    let fresh = GridBox::new(3, &image(&["110", "011", "111"]), &image(&["101", "111", "010"]));
    let mut b = fresh.clone();
    b.reset(&fresh.make_hole());
    assert_eq!(b, fresh);
}

#[test]
fn reset_keeps_forbidden_voxels_forbidden() {
    let mut b = GridBox::new(2, &image(&["10", "10"]), &image(&["10", "10"]));
    let hole = b.make_hole();
    b.put(Point::new(0, 0, 1), 3);
    b.reset(&hole);
    assert_eq!(b.grid.data, vec![0, 0, 0xFFFF, 0xFFFF, 0xFFFF, 0xFFFF, 0xFFFF, 0xFFFF]);
    assert_eq!(b.front.data, vec![0, 0, 255, 255]);
    assert_eq!(b.right.data, vec![0, 255, 0, 255]);
}

#[test]
fn face_conv_writes_ones_and_zeros() {
    let input = vec![vec![1, 0, 2], vec![], vec![-1, 1]];
    assert_eq!(
        ahc019::face_conv(&input),
        vec![b"100".to_vec(), Vec::new(), b"01".to_vec()]
    );
}

#[test]
fn silhouettes_all_on_leave_every_voxel_usable() {
    for d in [1u8, 2, 5, 14].iter() {
        let b = cube(*d);
        let n = (*d as usize).pow(3);
        assert_eq!(b.grid.data, vec![0; n]);
        assert_eq!(b.make_hole().grid, (0..n).collect::<Vec<usize>>());
        assert_eq!(b.make_hole_xzy().len(), (*d as usize).pow(2));
    }
}

#[test]
fn silhouettes_all_off_leave_no_voxel_usable() {
    let b = GridBox::new(3, &image(&["000", "000", "000"]), &image(&["000", "000", "000"]));
    assert_eq!(b.grid.data, vec![0xFFFF; 27]);
    assert_eq!(b.front.data, vec![255; 9]);
    assert!(b.make_hole().grid.is_empty());
    assert!(b.make_hole_xzy().is_empty());
}
