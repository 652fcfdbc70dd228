use ahc019::axis_map::cross_dir;
use ahc019::AxisMap;

const PLAIN: [u8; 6] = [0, 1, 2, 3, 4, 5];

fn unit(d: u8) -> [i32; 3] {
    let mut v = [0; 3];
    v[(d / 2) as usize] = if d % 2 == 0 { 1 } else { -1 };
    v
}

fn cross_of(a: [i32; 3], b: [i32; 3]) -> [i32; 3] {
    [
        a[1] * b[2] - a[2] * b[1],
        a[2] * b[0] - a[0] * b[2],
        a[0] * b[1] - a[1] * b[0],
    ]
}

fn is_rotation(map: &[u8; 6]) -> bool {
    let mut seen = [false; 6];
    for d in 0..6 {
        if map[d] >= 6 || seen[map[d] as usize] {
            return false;
        }
        seen[map[d] as usize] = true;
        if map[d ^ 1] != map[d] ^ 1 {
            return false;
        }
    }
    cross_of(unit(map[0]), unit(map[2])) == unit(map[4])
}

#[test]
fn new_map_fixes_nothing() {
    assert_eq!(AxisMap::new(), AxisMap::Empty);
}

#[test]
fn empty_map_offers_every_direction_in_the_given_order() {
    let order = [3, 0, 5, 1, 4, 2];
    assert_eq!(AxisMap::new().map_axis(2, order).to_vec(), order.to_vec());
}

#[test]
fn first_pair_fixes_one_axis() {
    let m = AxisMap::new().fix(0, 2);
    assert_eq!(m, AxisMap::Map1 { from: 0, to: 2 });
    assert_eq!(m.map_axis(0, PLAIN).to_vec(), vec![2]);
}

#[test]
fn opposite_of_a_fixed_direction_goes_to_the_opposite_image() {
    for from in 0..6u8 {
        for to in 0..6u8 {
            let m = AxisMap::new().fix(from, to);
            assert_eq!(m.map_axis(from ^ 1, PLAIN).to_vec(), vec![to ^ 1]);
        }
    }
}

#[test]
fn fix_on_the_fixed_axis_changes_nothing() {
    let m = AxisMap::Map1 { from: 4, to: 1 };
    assert_eq!(m.fix(4, 1), m);
    assert_eq!(m.fix(5, 0), m);
}

#[test]
fn off_axis_candidates_follow_the_half_turn() {
    let m = AxisMap::Map1 { from: 0, to: 2 };
    assert_eq!(m.map_axis(2, PLAIN).to_vec(), vec![0, 1, 5, 4]);
    assert_eq!(m.map_axis(4, [5, 4, 3, 2, 1, 0]).to_vec(), vec![4, 5, 1, 0]);
    let same = AxisMap::Map1 { from: 3, to: 3 };
    assert_eq!(same.map_axis(0, PLAIN).to_vec(), vec![0, 1, 4, 5]);
    let turned = AxisMap::Map1 { from: 0, to: 1 };
    assert_eq!(turned.map_axis(2, PLAIN).to_vec(), vec![2, 3, 5, 4]);
    let up = AxisMap::Map1 { from: 4, to: 5 };
    assert_eq!(up.map_axis(0, PLAIN).to_vec(), vec![0, 1, 3, 2]);
}

#[test]
fn off_axis_candidates_are_the_four_directions_off_the_image_axis() {
    for from in 0..6u8 {
        for to in 0..6u8 {
            let m = AxisMap::Map1 { from, to };
            for d in 0..6u8 {
                if d / 2 == from / 2 {
                    continue;
                }
                let mut got = m.map_axis(d, PLAIN).to_vec();
                got.sort();
                let want: Vec<u8> = (0..6u8).filter(|c| c / 2 != to / 2).collect();
                assert_eq!(got, want);
            }
        }
    }
}

#[test]
fn second_pair_completes_the_rotation() {
    let m = AxisMap::Map1 { from: 0, to: 0 }.fix(2, 3);
    assert_eq!(m, AxisMap::Map2 { map: [0, 1, 3, 2, 5, 4] });
    let n = AxisMap::Map1 { from: 0, to: 2 }.fix(2, 1);
    assert_eq!(n, AxisMap::Map2 { map: [2, 3, 1, 0, 4, 5] });
    let k = AxisMap::Map1 { from: 5, to: 0 }.fix(3, 2);
    assert_eq!(k, AxisMap::Map2 { map: [5, 4, 3, 2, 1, 0] });
}

#[test]
fn same_pairs_complete_to_the_identity() {
    for from in 0..6u8 {
        for d1 in 0..6u8 {
            if d1 / 2 == from / 2 {
                continue;
            }
            let m = AxisMap::Map1 { from, to: from }.fix(d1, d1);
            assert_eq!(m, AxisMap::Map2 { map: PLAIN });
        }
    }
}

#[test]
fn every_completion_is_a_rotation_with_both_pairs() {
    let mut seen = Vec::new();
    for from in 0..6u8 {
        for to in 0..6u8 {
            for d1 in 0..6u8 {
                for d2 in 0..6u8 {
                    if d1 / 2 == from / 2 || d2 / 2 == to / 2 {
                        continue;
                    }
                    match (AxisMap::Map1 { from, to }).fix(d1, d2) {
                        AxisMap::Map2 { map } => {
                            assert!(is_rotation(&map));
                            assert_eq!(map[from as usize], to);
                            assert_eq!(map[d1 as usize], d2);
                            if !seen.contains(&map) {
                                seen.push(map);
                            }
                        }
                        other => panic!("{:?}", other),
                    }
                }
            }
        }
    }
    assert_eq!(seen.len(), 24);
}

#[test]
fn complete_map_offers_the_image_only() {
    let m = AxisMap::Map2 { map: [2, 3, 1, 0, 4, 5] };
    for d in 0..6u8 {
        assert_eq!(m.map_axis(d, PLAIN).to_vec(), vec![[2, 3, 1, 0, 4, 5][d as usize]]);
    }
}

#[test]
fn fixing_an_image_of_a_complete_map_changes_nothing() {
    let map = [4, 5, 3, 2, 0, 1];
    let m = AxisMap::Map2 { map };
    for d in 0..6u8 {
        assert_eq!(m.fix(d, map[d as usize]), m);
    }
}

#[test]
fn a_fixed_pair_stays_fixed() {
    let m = AxisMap::new().fix(3, 4);
    assert_eq!(m.map_axis(3, PLAIN).to_vec(), vec![4]);
    let n = m.fix(0, 2);
    assert_eq!(n.map_axis(3, PLAIN).to_vec(), vec![4]);
    assert_eq!(n.map_axis(2, PLAIN).to_vec(), vec![5]);
    assert_eq!(n.map_axis(0, PLAIN).to_vec(), vec![2]);
    assert_eq!(n.map_axis(1, PLAIN).to_vec(), vec![3]);
}

#[test]
fn cross_products_of_the_axes() {
    assert_eq!(cross_dir(0, 2), 4);
    assert_eq!(cross_dir(2, 4), 0);
    assert_eq!(cross_dir(4, 0), 2);
    assert_eq!(cross_dir(2, 0), 5);
    assert_eq!(cross_dir(1, 2), 5);
    assert_eq!(cross_dir(1, 3), 4);
    for a in 0..6u8 {
        for b in 0..6u8 {
            if a / 2 != b / 2 {
                assert_eq!(unit(cross_dir(a, b)), cross_of(unit(a), unit(b)));
            }
        }
    }
}
