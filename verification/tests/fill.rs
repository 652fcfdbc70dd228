use ahc019::flood::TOO_DEAR;
use ahc019::{fill_all, single_update_loop, BlockSet, GridBox, GridSystem, Point, NO_SCORE, SCORE_UNIT};
use rand_pcg::Mcg128Xsl64;

fn image(rows: &[&str]) -> Vec<Vec<u8>> {
    rows.iter().map(|r| r.as_bytes().to_vec()).collect()
}

fn cube(d: u8) -> GridBox {
    let row = "1".repeat(d as usize);
    let rows: Vec<&str> = (0..d).map(|_| row.as_str()).collect();
    GridBox::new(d, &image(&rows), &image(&rows))
}

fn covered(b: &GridBox) -> bool {
    (0..b.d).all(|x| {
        (0..b.d).all(|y| {
            (0..b.d).all(|z| {
                b.label(Point::new(x, y, z)) == 0xFFFF
                    || (b.front.get(x, z) >= 1 && b.right.get(y, z) >= 1)
            })
        })
    })
}

#[test]
fn a_block_is_too_dear_when_two_units_are_not_left() {
    let mut g = cube(2);
    let mut b = BlockSet::new();
    let fresh = g.clone();
    assert_eq!(single_update_loop(&mut g, Point::new(0, 0, 0), &mut b, 2 * SCORE_UNIT, 1), TOO_DEAR);
    assert_eq!(TOO_DEAR, 2 * SCORE_UNIT);
    assert_eq!(g, fresh);
    assert!(b.half1.is_empty());
    assert_eq!(b.gen_half_block_id(), 10000);
}

#[test]
fn a_flood_fills_what_it_reaches() {
    let mut g = cube(2);
    let mut b = BlockSet::new();
    let cost = single_update_loop(&mut g, Point::new(1, 0, 1), &mut b, NO_SCORE, 1);
    assert_eq!(cost, 8 * SCORE_UNIT + SCORE_UNIT / 8);
    assert_eq!(b.half1.len(), 8);
    assert_eq!(b.half1[0], Point::new(1, 0, 1));
    assert!(b.half2.is_empty());
    assert!(g.grid.data.iter().all(|&l| l == 10000));
    assert_eq!(b.gen_half_block_id(), 10001);
}

#[test]
fn a_flood_of_the_second_object_is_recorded_there() {
    let mut g = cube(2);
    let mut b = BlockSet::new();
    b.gen_half_block_id();
    single_update_loop(&mut g, Point::new(0, 0, 0), &mut b, NO_SCORE, 2);
    assert!(b.half1.is_empty());
    assert_eq!(b.half2.len(), 8);
    assert!(g.grid.data.iter().all(|&l| l == 10001));
}

#[test]
fn a_flood_stays_inside_its_region() {
    let mut g = GridBox::new(3, &image(&["101", "101", "101"]), &image(&["100", "100", "100"]));
    let mut b = BlockSet::new();
    let cost = single_update_loop(&mut g, Point::new(0, 0, 1), &mut b, NO_SCORE, 1);
    assert_eq!(cost, 3 * SCORE_UNIT + SCORE_UNIT / 3);
    let mut got = b.half1.clone();
    got.sort();
    assert_eq!(got, vec![Point::new(0, 0, 0), Point::new(0, 0, 1), Point::new(0, 0, 2)]);
    assert_eq!(g.label(Point::new(2, 0, 0)), 0);
}

#[test]
fn a_flood_stops_when_its_cost_reaches_the_cut_off() {
    let mut g = cube(3);
    let mut b = BlockSet::new();
    let cut_off = 4 * SCORE_UNIT;
    let cost = single_update_loop(&mut g, Point::new(0, 0, 0), &mut b, cut_off, 1);
    assert_eq!(b.half1.len(), 4);
    assert_eq!(cost, 4 * SCORE_UNIT + SCORE_UNIT / 4);
    assert!(cost >= cut_off);
    assert_eq!(g.grid.data.iter().filter(|&&l| l == 10000).count(), 4);
}

#[test]
fn a_flood_with_little_room_stops_after_two_voxels() {
    let mut g = cube(3);
    let mut b = BlockSet::new();
    let cost = single_update_loop(&mut g, Point::new(1, 1, 1), &mut b, 2 * SCORE_UNIT + 1, 1);
    assert_eq!(b.half1.len(), 2);
    assert_eq!(cost, 2 * SCORE_UNIT + SCORE_UNIT / 2);
}

#[test]
fn fill_of_covered_objects_adds_nothing() {
    let g1 = GridBox::new(2, &image(&["00", "00"]), &image(&["00", "00"]));
    let g2 = GridBox::new(2, &image(&["00", "00"]), &image(&["00", "00"]));
    let (h1, h2) = (g1.make_hole(), g2.make_hole());
    let mut grid = GridSystem { grid_1: g1, grid_2: g2, block: BlockSet::new() };
    let mut rng = Mcg128Xsl64::new(1);
    assert_eq!(fill_all(&mut rng, &h1.x_z_yy, &h2.x_z_yy, &mut grid, 1), Some(0));
    assert_eq!(fill_all(&mut rng, &h1.x_z_yy, &h2.x_z_yy, &mut grid, 0), None);
    assert!(grid.block.shared.is_empty());
}

#[test]
fn fill_covers_both_objects() {
    for seed in 0..30 {
        let g1 = GridBox::new(
            4,
            &image(&["1110", "0111", "1111", "1101"]),
            &image(&["1011", "1111", "0110", "1111"]),
        );
        let g2 = GridBox::new(
            4,
            &image(&["0111", "1111", "1011", "1110"]),
            &image(&["1111", "1101", "1111", "0111"]),
        );
        let (h1, h2) = (g1.make_hole(), g2.make_hole());
        let mut grid = GridSystem { grid_1: g1, grid_2: g2, block: BlockSet::new() };
        let mut rng = Mcg128Xsl64::new(seed);
        let added = fill_all(&mut rng, &h1.x_z_yy, &h2.x_z_yy, &mut grid, NO_SCORE).unwrap();
        assert!(covered(&grid.grid_1));
        assert!(covered(&grid.grid_2));
        assert!(added >= grid.block.shared_only_score());
        if grid.block.half1.is_empty() && grid.block.half2.is_empty() {
            assert_eq!(added, grid.block.shared_only_score());
        }
    }
}

#[test]
fn fill_scores_shared_and_single_blocks() {
    let g1 = GridBox::new(2, &image(&["10", "10"]), &image(&["10", "10"]));
    let g2 = GridBox::new(2, &image(&["01", "00"]), &image(&["01", "00"]));
    let (h1, h2) = (g1.make_hole(), g2.make_hole());
    let mut grid = GridSystem { grid_1: g1, grid_2: g2, block: BlockSet::new() };
    let mut rng = Mcg128Xsl64::new(4);
    let added = fill_all(&mut rng, &h1.x_z_yy, &h2.x_z_yy, &mut grid, NO_SCORE).unwrap();
    assert_eq!(grid.block.shared.len(), 1);
    assert_eq!(grid.block.shared[0].1.len(), 1);
    assert_eq!(grid.block.half1.len(), 1);
    assert!(grid.block.half2.is_empty());
    assert_eq!(added, SCORE_UNIT + 2 * SCORE_UNIT);
}

#[test]
fn fill_fails_when_the_cut_off_is_reached() {
    let g1 = GridBox::new(2, &image(&["10", "10"]), &image(&["10", "10"]));
    let g2 = GridBox::new(2, &image(&["01", "00"]), &image(&["01", "00"]));
    let (h1, h2) = (g1.make_hole(), g2.make_hole());
    for &cut_off in [1, SCORE_UNIT, 3 * SCORE_UNIT].iter() {
        let mut grid = GridSystem { grid_1: g1.clone(), grid_2: g2.clone(), block: BlockSet::new() };
        let mut rng = Mcg128Xsl64::new(4);
        assert_eq!(fill_all(&mut rng, &h1.x_z_yy, &h2.x_z_yy, &mut grid, cut_off), None);
    }
    let mut grid = GridSystem { grid_1: g1.clone(), grid_2: g2.clone(), block: BlockSet::new() };
    let mut rng = Mcg128Xsl64::new(4);
    assert_eq!(
        fill_all(&mut rng, &h1.x_z_yy, &h2.x_z_yy, &mut grid, 3 * SCORE_UNIT + 1),
        Some(3 * SCORE_UNIT)
    );
}

#[test]
fn fill_keeps_what_was_placed_before() {
    let g1 = cube(3);
    let g2 = cube(3);
    let (h1, h2) = (g1.make_hole(), g2.make_hole());
    let mut grid = GridSystem { grid_1: g1, grid_2: g2, block: BlockSet::new() };
    let id = grid.block.gen_shared_block_id();
    grid.grid_1.put(Point::new(0, 0, 0), id);
    grid.grid_2.put(Point::new(2, 2, 2), id);
    grid.block.push_shared(id, vec![Point::new(0, 0, 0)], vec![Point::new(2, 2, 2)]);
    let mut rng = Mcg128Xsl64::new(9);
    let added = fill_all(&mut rng, &h1.x_z_yy, &h2.x_z_yy, &mut grid, NO_SCORE).unwrap();
    assert_eq!(grid.grid_1.label(Point::new(0, 0, 0)), 1);
    assert_eq!(grid.grid_2.label(Point::new(2, 2, 2)), 1);
    assert_eq!(grid.block.shared[0].0, 1);
    assert!(grid.block.shared.len() >= 2);
    assert!(grid.block.shared.iter().skip(1).all(|e| e.0 != 1));
    assert!(added > 0);
}

#[test]
fn a_shared_block_is_recorded_under_the_next_id() {
    let mut grid = GridSystem { grid_1: cube(2), grid_2: cube(2), block: BlockSet::new() };
    let mut rng = Mcg128Xsl64::new(8);
    let first = ahc019::add_shared_block(&mut rng, &mut grid, Point::new(0, 0, 0), Point::new(1, 1, 1));
    assert_eq!(grid.block.shared.len(), 1);
    let (id, v1, v2) = grid.block.shared[0].clone();
    assert_eq!(id, 1);
    assert_eq!(v1[0], Point::new(0, 0, 0));
    assert_eq!(v2[0], Point::new(1, 1, 1));
    assert_eq!(v1.len(), v2.len());
    assert_eq!(first, SCORE_UNIT / v1.len() as u64);
    assert!(v1.iter().all(|&p| grid.grid_1.label(p) == 1));
    assert!(v2.iter().all(|&p| grid.grid_2.label(p) == 1));
    assert_eq!(grid.grid_1.grid.data.iter().filter(|&&l| l == 1).count(), v1.len());
}

#[test]
fn a_single_block_is_recorded_for_its_object() {
    let mut grid = GridSystem { grid_1: cube(2), grid_2: cube(2), block: BlockSet::new() };
    let cost = ahc019::add_single_block(&mut grid, Point::new(0, 1, 0), NO_SCORE, 2);
    assert_eq!(cost, 8 * SCORE_UNIT + SCORE_UNIT / 8);
    assert!(grid.block.half1.is_empty());
    assert_eq!(grid.block.half2.len(), 8);
    assert!(grid.grid_1.grid.data.iter().all(|&l| l == 0));
    assert!(grid.grid_2.grid.data.iter().all(|&l| l == 10000));
    let fresh = GridSystem { grid_1: cube(2), grid_2: cube(2), block: BlockSet::new() };
    let mut none = fresh.clone();
    assert_eq!(ahc019::add_single_block(&mut none, Point::new(0, 1, 0), TOO_DEAR, 1), TOO_DEAR);
    assert_eq!(none.grid_1, fresh.grid_1);
    assert!(none.block.half1.is_empty());
}

#[test]
fn labels_and_catalogue_agree_after_a_fill() {
    for seed in 0..30 {
        let g1 = GridBox::new(
            4,
            &image(&["1110", "0111", "1111", "1101"]),
            &image(&["1011", "1111", "0110", "1111"]),
        );
        let g2 = GridBox::new(
            4,
            &image(&["0111", "1111", "1011", "1110"]),
            &image(&["1111", "1101", "1111", "0111"]),
        );
        let (h1, h2) = (g1.make_hole(), g2.make_hole());
        let mut grid = GridSystem { grid_1: g1, grid_2: g2, block: BlockSet::new() };
        let mut rng = Mcg128Xsl64::new(seed);
        fill_all(&mut rng, &h1.x_z_yy, &h2.x_z_yy, &mut grid, NO_SCORE).unwrap();
        let mut listed_1 = 0;
        let mut listed_2 = 0;
        for (id, v1, v2) in grid.block.shared.iter() {
            assert!(*id >= 1 && *id < 10000);
            assert_eq!(v1.len(), v2.len());
            assert!(v1.iter().all(|&p| grid.grid_1.label(p) == *id));
            assert!(v2.iter().all(|&p| grid.grid_2.label(p) == *id));
            listed_1 += v1.len();
            listed_2 += v2.len();
        }
        assert!(grid.block.half1.iter().all(|&p| grid.grid_1.label(p) >= 10000));
        assert!(grid.block.half2.iter().all(|&p| grid.grid_2.label(p) >= 10000));
        listed_1 += grid.block.half1.len();
        listed_2 += grid.block.half2.len();
        let blocks = |g: &GridBox| g.grid.data.iter().filter(|&&l| l != 0 && l != 0xFFFF).count();
        assert_eq!(blocks(&grid.grid_1), listed_1);
        assert_eq!(blocks(&grid.grid_2), listed_2);
        let mut ids: Vec<u16> = grid.block.shared.iter().map(|e| e.0).collect();
        ids.sort();
        ids.dedup();
        assert_eq!(ids.len(), grid.block.shared.len());
    }
}

#[test]
fn a_flood_places_voxels_depth_first() {
    let mut g = cube(2);
    let mut b = BlockSet::new();
    single_update_loop(&mut g, Point::new(0, 0, 0), &mut b, NO_SCORE, 1);
    assert_eq!(
        b.half1,
        vec![
            Point::new(0, 0, 0),
            Point::new(1, 0, 0),
            Point::new(0, 1, 0),
            Point::new(0, 0, 1),
            Point::new(1, 0, 1),
            Point::new(0, 1, 1),
            Point::new(1, 1, 1),
            Point::new(1, 1, 0),
        ]
    );
}

#[test]
fn a_flood_cut_short_keeps_its_first_voxels() {
    let mut g = cube(2);
    let mut b = BlockSet::new();
    let cost = single_update_loop(&mut g, Point::new(0, 0, 0), &mut b, 5 * SCORE_UNIT, 1);
    assert_eq!(
        b.half1,
        vec![
            Point::new(0, 0, 0),
            Point::new(1, 0, 0),
            Point::new(0, 1, 0),
            Point::new(0, 0, 1),
            Point::new(1, 0, 1),
        ]
    );
    assert_eq!(cost, 5 * SCORE_UNIT + SCORE_UNIT / 5);
}
