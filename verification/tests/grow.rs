use ahc019::{grow_shared_block, GridBox, Point};
use rand_pcg::Mcg128Xsl64;

fn image(rows: &[&str]) -> Vec<Vec<u8>> {
    rows.iter().map(|r| r.as_bytes().to_vec()).collect()
}

fn cube(d: u8) -> GridBox {
    let row = "1".repeat(d as usize);
    let rows: Vec<&str> = (0..d).map(|_| row.as_str()).collect();
    GridBox::new(d, &image(&rows), &image(&rows))
}

fn rotations() -> Vec<[[i32; 3]; 3]> {
    let mut all = Vec::new();
    let perms = [[0, 1, 2], [0, 2, 1], [1, 0, 2], [1, 2, 0], [2, 0, 1], [2, 1, 0]];
    for perm in perms.iter() {
        for signs in 0..8 {
            let mut m = [[0i32; 3]; 3];
            for r in 0..3 {
                m[r][perm[r]] = if signs >> r & 1 == 0 { 1 } else { -1 };
            }
            let det = m[0][0] * (m[1][1] * m[2][2] - m[1][2] * m[2][1])
                - m[0][1] * (m[1][0] * m[2][2] - m[1][2] * m[2][0])
                + m[0][2] * (m[1][0] * m[2][1] - m[1][1] * m[2][0]);
            if det == 1 {
                all.push(m);
            }
        }
    }
    all
}

fn normal(mut v: Vec<[i32; 3]>) -> Vec<[i32; 3]> {
    let mut low = [i32::MAX; 3];
    for p in v.iter() {
        for a in 0..3 {
            low[a] = low[a].min(p[a]);
        }
    }
    for p in v.iter_mut() {
        for a in 0..3 {
            p[a] -= low[a];
        }
    }
    v.sort();
    v
}

fn congruent(a: &[Point], b: &[Point]) -> bool {
    let av: Vec<[i32; 3]> = a.iter().map(|p| [p.0 as i32, p.1 as i32, p.2 as i32]).collect();
    let bv: Vec<[i32; 3]> = b.iter().map(|p| [p.0 as i32, p.1 as i32, p.2 as i32]).collect();
    let want = normal(av);
    rotations().iter().any(|m| {
        let turned: Vec<[i32; 3]> = bv
            .iter()
            .map(|p| {
                [
                    m[0][0] * p[0] + m[0][1] * p[1] + m[0][2] * p[2],
                    m[1][0] * p[0] + m[1][1] * p[1] + m[1][2] * p[2],
                    m[2][0] * p[0] + m[2][1] * p[1] + m[2][2] * p[2],
                ]
            })
            .collect();
        normal(turned) == want
    })
}

fn connected(v: &[Point]) -> bool {
    let mut reached = vec![false; v.len()];
    let mut stack = vec![0];
    reached[0] = true;
    while let Some(i) = stack.pop() {
        for j in 0..v.len() {
            let dist = (v[i].0 as i32 - v[j].0 as i32).abs()
                + (v[i].1 as i32 - v[j].1 as i32).abs()
                + (v[i].2 as i32 - v[j].2 as i32).abs();
            if dist == 1 && !reached[j] {
                reached[j] = true;
                stack.push(j);
            }
        }
    }
    reached.iter().all(|&r| r)
}

#[test]
fn there_are_twenty_four_rotations() {
    assert_eq!(rotations().len(), 24);
}

#[test]
fn grown_lists_start_with_the_seeds_and_have_equal_length() {
    for seed in 0..40 {
        let mut g1 = cube(3);
        let mut g2 = cube(3);
        let mut rng = Mcg128Xsl64::new(seed);
        let (v1, v2) =
            grow_shared_block(&mut rng, &mut g1, &mut g2, 1, Point::new(1, 1, 1), Point::new(0, 2, 1));
        assert_eq!(v1[0], Point::new(1, 1, 1));
        assert_eq!(v2[0], Point::new(0, 2, 1));
        assert_eq!(v1.len(), v2.len());
        assert!(v1.len() >= 2);
    }
}

#[test]
fn grown_voxels_carry_the_block_id_and_nothing_else_does() {
    for seed in 0..40 {
        let mut g1 = cube(3);
        let mut g2 = cube(3);
        g1.put(Point::new(2, 2, 2), 9);
        let mut rng = Mcg128Xsl64::new(seed);
        let (v1, v2) =
            grow_shared_block(&mut rng, &mut g1, &mut g2, 4, Point::new(0, 0, 0), Point::new(2, 0, 1));
        for x in 0..3 {
            for y in 0..3 {
                for z in 0..3 {
                    let p = Point::new(x, y, z);
                    assert_eq!(g1.label(p) == 4, v1.contains(&p));
                    assert_eq!(g2.label(p) == 4, v2.contains(&p));
                }
            }
        }
        assert_eq!(g1.label(Point::new(2, 2, 2)), 9);
        let mut once = v1.clone();
        once.sort();
        once.dedup();
        assert_eq!(once.len(), v1.len());
    }
}

#[test]
fn grown_blocks_are_connected_and_congruent() {
    for seed in 0..60 {
        let mut g1 = GridBox::new(
            4,
            &image(&["1110", "0111", "1111", "1101"]),
            &image(&["1011", "1111", "0110", "1111"]),
        );
        let mut g2 = GridBox::new(
            4,
            &image(&["0111", "1111", "1011", "1110"]),
            &image(&["1111", "1101", "1111", "0111"]),
        );
        let h1 = g1.make_hole();
        let h2 = g2.make_hole();
        let mut rng = Mcg128Xsl64::new(seed);
        let p1 = g1.make_yet_points(&h1.x_z_yy).chose(&mut rng).unwrap();
        let p2 = g2.make_yet_points(&h2.x_z_yy).chose(&mut rng).unwrap();
        let (v1, v2) = grow_shared_block(&mut rng, &mut g1, &mut g2, 1, p1, p2);
        assert!(connected(&v1));
        assert!(connected(&v2));
        assert!(congruent(&v1, &v2));
    }
}

fn line_along_x() -> GridBox {
    GridBox::new(3, &image(&["111", "000", "000"]), &image(&["100", "000", "000"]))
}

fn line_along_y() -> GridBox {
    GridBox::new(3, &image(&["100", "000", "000"]), &image(&["111", "000", "000"]))
}

#[test]
fn lines_grow_to_full_length_from_their_ends() {
    for seed in 0..40 {
        let mut g1 = line_along_x();
        let mut g2 = line_along_y();
        let mut rng = Mcg128Xsl64::new(seed);
        let (v1, v2) =
            grow_shared_block(&mut rng, &mut g1, &mut g2, 1, Point::new(0, 0, 0), Point::new(0, 2, 0));
        assert_eq!(v1, vec![Point::new(0, 0, 0), Point::new(1, 0, 0), Point::new(2, 0, 0)]);
        assert_eq!(v2, vec![Point::new(0, 2, 0), Point::new(0, 1, 0), Point::new(0, 0, 0)]);
    }
}

#[test]
fn lines_grow_to_both_sides_from_the_middle() {
    for seed in 0..40 {
        let mut g1 = line_along_x();
        let mut g2 = line_along_y();
        let mut rng = Mcg128Xsl64::new(seed);
        let (v1, v2) =
            grow_shared_block(&mut rng, &mut g1, &mut g2, 1, Point::new(1, 0, 0), Point::new(0, 1, 0));
        assert_eq!(v1.len(), 3);
        assert_eq!(v2.len(), 3);
        assert!(congruent(&v1, &v2));
    }
}

#[test]
fn growth_ends_where_one_object_has_no_room() {
    for seed in 0..40 {
        let mut g1 = line_along_x();
        let mut g2 = line_along_y();
        let mut rng = Mcg128Xsl64::new(seed);
        let (v1, v2) =
            grow_shared_block(&mut rng, &mut g1, &mut g2, 1, Point::new(0, 0, 0), Point::new(0, 1, 0));
        assert_eq!(v1, vec![Point::new(0, 0, 0), Point::new(1, 0, 0)]);
        assert_eq!(v2.len(), 2);
        assert_eq!(v2[0], Point::new(0, 1, 0));
    }
}

#[test]
fn two_cubes_can_be_shared_whole() {
    let mut sizes = Vec::new();
    for seed in 0..200 {
        let mut g1 = cube(3);
        let mut g2 = cube(3);
        let mut rng = Mcg128Xsl64::new(seed);
        let (v1, _) =
            grow_shared_block(&mut rng, &mut g1, &mut g2, 1, Point::new(0, 0, 0), Point::new(0, 0, 0));
        sizes.push(v1.len());
    }
    assert!(sizes.contains(&27));
    assert!(sizes.iter().all(|&s| s <= 27));
}

#[test]
fn different_seeds_grow_in_different_orders() {
    let mut orders = Vec::new();
    for seed in 0..30 {
        let mut g1 = cube(3);
        let mut g2 = cube(3);
        let mut rng = Mcg128Xsl64::new(seed);
        let (v1, _) =
            grow_shared_block(&mut rng, &mut g1, &mut g2, 1, Point::new(1, 1, 1), Point::new(1, 1, 1));
        if !orders.contains(&v1) {
            orders.push(v1);
        }
    }
    assert!(orders.len() > 1);
}

#[test]
fn same_seed_grows_the_same_block() {
    let mut results = Vec::new();
    for _ in 0..2 {
        let mut g1 = cube(3);
        let mut g2 = cube(3);
        let mut rng = Mcg128Xsl64::new(77);
        results.push(grow_shared_block(
            &mut rng,
            &mut g1,
            &mut g2,
            1,
            Point::new(1, 1, 1),
            Point::new(2, 0, 1),
        ));
    }
    assert_eq!(results[0], results[1]);
}

#[test]
fn a_hemmed_in_seed_stays_alone() {
    let mut g1 = GridBox::new(2, &image(&["10", "00"]), &image(&["10", "00"]));
    let mut g2 = cube(2);
    let mut rng = Mcg128Xsl64::new(5);
    let (v1, v2) =
        grow_shared_block(&mut rng, &mut g1, &mut g2, 1, Point::new(0, 0, 0), Point::new(1, 1, 1));
    assert_eq!(v1, vec![Point::new(0, 0, 0)]);
    assert_eq!(v2, vec![Point::new(1, 1, 1)]);
}

#[test]
fn the_map_of_a_grown_block_carries_one_list_to_the_other() {
    for seed in 0..40 {
        let mut g1 = cube(3);
        let mut g2 = cube(3);
        let mut rng = Mcg128Xsl64::new(seed);
        let (v1, v2, axis) = ahc019::grow_with_map(
            &mut rng,
            &mut g1,
            &mut g2,
            1,
            Point::new(1, 1, 1),
            Point::new(1, 1, 1),
        );
        let map = match axis {
            ahc019::AxisMap::Map2 { map } => map,
            other => panic!("{:?}", other),
        };
        for k in 0..v1.len() {
            let mut want = [0i32; 3];
            let from = [
                v1[k].0 as i32 - v1[0].0 as i32,
                v1[k].1 as i32 - v1[0].1 as i32,
                v1[k].2 as i32 - v1[0].2 as i32,
            ];
            for a in 0..3 {
                let image = map[2 * a];
                want[(image / 2) as usize] += if image % 2 == 0 { from[a] } else { -from[a] };
            }
            let got = [
                v2[k].0 as i32 - v2[0].0 as i32,
                v2[k].1 as i32 - v2[0].1 as i32,
                v2[k].2 as i32 - v2[0].2 as i32,
            ];
            assert_eq!(got, want);
        }
    }
}

#[test]
fn a_line_fixes_one_axis_only() {
    let mut g1 = line_along_x();
    let mut g2 = line_along_y();
    let mut rng = Mcg128Xsl64::new(11);
    let (_, _, axis) = ahc019::grow_with_map(
        &mut rng,
        &mut g1,
        &mut g2,
        1,
        Point::new(0, 0, 0),
        Point::new(0, 0, 0),
    );
    assert_eq!(axis, ahc019::AxisMap::Map1 { from: 0, to: 2 });
}

#[test]
fn growth_in_a_given_order_of_directions() {
    let mut g1 = cube(2);
    let mut g2 = cube(2);
    let (v1, v2, axis) = ahc019::grow_in_order(
        &mut g1,
        &mut g2,
        3,
        Point::new(0, 0, 0),
        Point::new(0, 0, 0),
        [0, 1, 2, 3, 4, 5],
        [4, 5, 2, 3, 0, 1],
    );
    assert_eq!(
        v1,
        vec![
            Point::new(0, 0, 0),
            Point::new(1, 0, 0),
            Point::new(0, 1, 0),
            Point::new(0, 0, 1),
            Point::new(1, 0, 1),
            Point::new(0, 1, 1),
            Point::new(1, 1, 1),
            Point::new(1, 1, 0),
        ]
    );
    assert_eq!(
        v2,
        vec![
            Point::new(0, 0, 0),
            Point::new(0, 0, 1),
            Point::new(1, 0, 0),
            Point::new(0, 1, 0),
            Point::new(0, 1, 1),
            Point::new(1, 1, 0),
            Point::new(1, 1, 1),
            Point::new(1, 0, 1),
        ]
    );
    assert_eq!(axis, ahc019::AxisMap::Map2 { map: [4, 5, 0, 1, 2, 3] });
    assert!(g1.grid.data.iter().all(|&l| l == 3));
    assert!(g2.grid.data.iter().all(|&l| l == 3));
}

#[test]
fn growth_of_a_line_in_a_given_order() {
    let mut g1 = line_along_x();
    let mut g2 = line_along_y();
    let (v1, v2, axis) = ahc019::grow_in_order(
        &mut g1,
        &mut g2,
        1,
        Point::new(0, 0, 0),
        Point::new(0, 0, 0),
        [0, 1, 2, 3, 4, 5],
        [0, 1, 2, 3, 4, 5],
    );
    assert_eq!(v1, vec![Point::new(0, 0, 0), Point::new(1, 0, 0), Point::new(2, 0, 0)]);
    assert_eq!(v2, vec![Point::new(0, 0, 0), Point::new(0, 1, 0), Point::new(0, 2, 0)]);
    assert_eq!(axis, ahc019::AxisMap::Map1 { from: 0, to: 2 });
}

#[test]
fn cubes_grown_from_their_corners_in_plain_order_are_taken_whole() {
    for d in [1u8, 2, 3, 5, 14].iter() {
        let mut g1 = cube(*d);
        let mut g2 = cube(*d);
        let (v1, v2, axis) = ahc019::grow_in_order(
            &mut g1,
            &mut g2,
            7,
            Point::new(0, 0, 0),
            Point::new(0, 0, 0),
            [0, 1, 2, 3, 4, 5],
            [0, 1, 2, 3, 4, 5],
        );
        let n = (*d as usize).pow(3);
        assert_eq!(v1.len(), n);
        assert_eq!(v2.len(), n);
        assert!(g1.grid.data.iter().all(|&l| l == 7));
        assert!(g2.grid.data.iter().all(|&l| l == 7));
        assert!(g1.front.data.iter().all(|&c| c == *d));
        assert!(g2.right.data.iter().all(|&c| c == *d));
        assert_eq!(ahc019::score::share_of(n), ahc019::SCORE_UNIT / n as u64);
        if *d >= 2 {
            assert_eq!(axis, ahc019::AxisMap::Map2 { map: [0, 1, 2, 3, 4, 5] });
        } else {
            assert_eq!(axis, ahc019::AxisMap::Empty);
        }
    }
}

#[test]
fn cubes_turned_about_the_corner_are_taken_whole() {
    for d in [2u8, 3, 4].iter() {
        let mut g1 = cube(*d);
        let mut g2 = cube(*d);
        let (v1, _, axis) = ahc019::grow_in_order(
            &mut g1,
            &mut g2,
            1,
            Point::new(0, 0, 0),
            Point::new(0, 0, 0),
            [0, 2, 4, 1, 3, 5],
            [5, 2, 4, 0, 1, 3],
        );
        assert_eq!(axis, ahc019::AxisMap::Map2 { map: [2, 3, 4, 5, 0, 1] });
        assert_eq!(v1.len(), (*d as usize).pow(3));
        assert!(g2.grid.data.iter().all(|&l| l == 1));
    }
}
