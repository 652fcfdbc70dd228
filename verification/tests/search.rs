use ahc019::{
    mc_run, mc_solve, mc_step, BlockSet, Chance, GridBox, GridSystem, Hole, McParams, Point,
    SolveInput, SolveResult, NO_SCORE, SCORE_UNIT,
};
use rand_pcg::Mcg128Xsl64;
use std::time::Instant;

const MILLI: u128 = 1_000_000;

fn image(rows: &[&str]) -> Vec<Vec<u8>> {
    rows.iter().map(|r| r.as_bytes().to_vec()).collect()
}

fn full(d: usize, on: bool) -> Vec<Vec<u8>> {
    (0..d).map(|_| vec![if on { b'1' } else { b'0' }; d]).collect()
}

fn params(mc_run: u64, erase_small_th: usize, numerator: u32) -> McParams {
    McParams { mc_run, erase_small_th, erase_shared_p: Chance { numerator, denominator: 100 } }
}

fn input(rows: [&[&str]; 4], limit: u128, params: McParams) -> SolveInput {
    SolveInput {
        start: Instant::now(),
        limit,
        front1: image(rows[0]),
        right1: image(rows[1]),
        front2: image(rows[2]),
        right2: image(rows[3]),
        params,
    }
}

fn system(rows: [&[&str]; 4]) -> (GridSystem, Hole, Hole) {
    let d = rows[0].len() as u8;
    let grid_1 = GridBox::new(d, &image(rows[0]), &image(rows[1]));
    let grid_2 = GridBox::new(d, &image(rows[2]), &image(rows[3]));
    let (h1, h2) = (grid_1.make_hole(), grid_2.make_hole());
    (GridSystem { grid_1, grid_2, block: BlockSet::new() }, h1, h2)
}

fn sizes_by_label(g: &[u16]) -> Vec<(u16, usize)> {
    let mut labels: Vec<u16> = g.iter().copied().filter(|&l| l != 0).collect();
    labels.sort();
    let mut out: Vec<(u16, usize)> = Vec::new();
    for l in labels {
        match out.last_mut() {
            Some(e) if e.0 == l => e.1 += 1,
            _ => out.push((l, 1)),
        }
    }
    out
}

fn score_of(g1: &[u16], g2: &[u16]) -> u64 {
    let (s1, s2) = (sizes_by_label(g1), sizes_by_label(g2));
    let mut total = 0;
    for &(l, n) in s1.iter() {
        match s2.iter().find(|e| e.0 == l) {
            Some(&(_, m)) => {
                assert_eq!(n, m);
                total += SCORE_UNIT / n as u64;
            }
            None => total += n as u64 * SCORE_UNIT + SCORE_UNIT / n as u64,
        }
    }
    for &(l, n) in s2.iter() {
        if s1.iter().all(|e| e.0 != l) {
            total += n as u64 * SCORE_UNIT + SCORE_UNIT / n as u64;
        }
    }
    total
}

fn covers(g: &[u16], d: usize, front: &[Vec<u8>], right: &[Vec<u8>]) -> bool {
    let block = |x: usize, y: usize, z: usize| g[(x * d + y) * d + z] != 0;
    for x in 0..d {
        for y in 0..d {
            for z in 0..d {
                let usable = front[z][x] == b'1' && right[z][y] == b'1';
                if !usable && block(x, y, z) {
                    return false;
                }
                if usable && !((0..d).any(|v| block(x, v, z)) && (0..d).any(|u| block(u, y, z))) {
                    return false;
                }
            }
        }
    }
    true
}

fn carried(v1: &[Point], v2: &[Point]) -> bool {
    let offset = |v: &[Point], k: usize| {
        [
            v[k].0 as i32 - v[0].0 as i32,
            v[k].1 as i32 - v[0].1 as i32,
            v[k].2 as i32 - v[0].2 as i32,
        ]
    };
    let perms = [[0, 1, 2], [0, 2, 1], [1, 0, 2], [1, 2, 0], [2, 0, 1], [2, 1, 0]];
    for perm in perms.iter() {
        for signs in 0..8 {
            let sign = |r: usize| if signs >> r & 1 == 0 { 1 } else { -1 };
            let odd = perm[0] > perm[1] || perm[0] > perm[2] || perm[1] > perm[2];
            let swaps = (perm[0] > perm[1]) as i32 + (perm[0] > perm[2]) as i32 + (perm[1] > perm[2]) as i32;
            let det = sign(0) * sign(1) * sign(2) * if swaps % 2 == 0 { 1 } else { -1 };
            if det != 1 || (odd && swaps == 0) {
                continue;
            }
            if (0..v1.len()).all(|k| {
                let (a, b) = (offset(v1, k), offset(v2, k));
                (0..3).all(|r| b[r] == sign(r) * a[perm[r]])
            }) {
                return true;
            }
        }
    }
    false
}

const CUBES: [&[&str]; 4] = [
    &["111", "111", "111"],
    &["111", "111", "111"],
    &["111", "111", "111"],
    &["111", "111", "111"],
];
const PILLARS: [&[&str]; 4] = [&["10", "10"], &["10", "10"], &["01", "01"], &["01", "01"]];
const UNEQUAL: [&[&str]; 4] = [&["11", "00"], &["10", "10"], &["10", "10"], &["11", "00"]];
const STAIRS: [&[&str]; 4] = [
    &["100", "110", "000"],
    &["100", "100", "000"],
    &["100", "100", "000"],
    &["100", "110", "000"],
];

#[test]
fn worst_result_holds_nothing() {
    let r = SolveResult::worst();
    assert!(r.g1.is_empty());
    assert!(r.g2.is_empty());
    assert_eq!(r.score, NO_SCORE);
    assert_eq!(r.run_count, 0);
}

#[test]
fn set_best_takes_a_better_score_only() {
    let (mut grid, _, _) = system(PILLARS);
    grid.grid_1.put(Point::new(0, 0, 0), 1);
    let mut best = SolveResult::worst();
    assert!(best.set_best(&grid.grid_1, &grid.grid_2, 5));
    assert_eq!(best.score, 5);
    assert_eq!(best.g1, vec![1, 0, 0, 0, 0, 0, 0, 0]);
    assert_eq!(best.g2, vec![0; 8]);
    grid.grid_1.put(Point::new(0, 0, 1), 1);
    assert!(!best.set_best(&grid.grid_1, &grid.grid_2, 5));
    assert!(!best.set_best(&grid.grid_1, &grid.grid_2, 6));
    assert_eq!(best.g1, vec![1, 0, 0, 0, 0, 0, 0, 0]);
    assert_eq!(best.score, 5);
    assert!(best.set_best(&grid.grid_1, &grid.grid_2, 4));
    assert_eq!(best.g1, vec![1, 1, 0, 0, 0, 0, 0, 0]);
    assert_eq!(best.score, 4);
}

#[test]
fn default_parameters_erase_nothing() {
    let p = McParams::default();
    assert_eq!(p.mc_run, 0);
    assert_eq!(p.erase_small_th, 0);
    assert_eq!(p.erase_shared_p, Chance { numerator: 0, denominator: 1 });
}

#[test]
fn no_restart_finds_nothing() {
    let mut rng = Mcg128Xsl64::new(1);
    let r = mc_solve(&mut rng, &input(PILLARS, 50 * MILLI, params(0, 0, 0)), 2);
    assert_eq!(r.score, NO_SCORE);
    assert!(r.g1.is_empty());
    assert_eq!(r.run_count, 0);
}

#[test]
fn no_time_finds_nothing() {
    let mut rng = Mcg128Xsl64::new(1);
    let r = mc_solve(&mut rng, &input(PILLARS, 0, params(3, 0, 0)), 2);
    assert_eq!(r.score, NO_SCORE);
    assert_eq!(r.run_count, 0);
}

#[test]
fn silhouettes_all_off_give_an_empty_solution() {
    let mut rng = Mcg128Xsl64::new(1);
    let inp = SolveInput {
        start: Instant::now(),
        limit: 50 * MILLI,
        front1: full(5, false),
        right1: full(5, false),
        front2: full(5, false),
        right2: full(5, false),
        params: params(1, 2, 50),
    };
    let r = mc_solve(&mut rng, &inp, 5);
    assert_eq!(r.score, 0);
    assert_eq!(r.g1, vec![0; 125]);
    assert_eq!(r.g2, vec![0; 125]);
    assert!(r.run_count >= 1);
}

#[test]
fn silhouettes_all_on_are_covered() {
    let mut rng = Mcg128Xsl64::new(7);
    let inp = SolveInput {
        start: Instant::now(),
        limit: 100 * MILLI,
        front1: full(5, true),
        right1: full(5, true),
        front2: full(5, true),
        right2: full(5, true),
        params: params(1, 2, 50),
    };
    let r = mc_solve(&mut rng, &inp, 5);
    assert!(covers(&r.g1, 5, &inp.front1, &inp.right1));
    assert!(covers(&r.g2, 5, &inp.front2, &inp.right2));
    assert_eq!(r.score, score_of(&r.g1, &r.g2));
    assert!(r.score > 0);
}

#[test]
fn one_voxel_each_is_one_shared_block() {
    let mut rng = Mcg128Xsl64::new(1);
    let rows: [&[&str]; 4] = [&["1"], &["1"], &["1"], &["1"]];
    let r = mc_solve(&mut rng, &input(rows, 50 * MILLI, params(1, 0, 0)), 1);
    assert_eq!(r.score, SCORE_UNIT);
    assert_eq!(r.g1, vec![1]);
    assert_eq!(r.g2, vec![1]);
}

#[test]
fn two_pillars_are_one_shared_block() {
    for seed in 0..10 {
        let mut rng = Mcg128Xsl64::new(seed);
        let r = mc_solve(&mut rng, &input(PILLARS, 50 * MILLI, params(1, 0, 0)), 2);
        assert_eq!(r.score, SCORE_UNIT / 2);
        assert_eq!(r.g1, vec![1, 1, 0, 0, 0, 0, 0, 0]);
        assert_eq!(r.g2, vec![0, 0, 0, 0, 0, 0, 1, 1]);
    }
}

#[test]
fn unequal_objects_share_what_they_can() {
    for seed in 0..10 {
        let mut rng = Mcg128Xsl64::new(seed);
        let inp = input(UNEQUAL, 50 * MILLI, params(2, 1, 50));
        let r = mc_solve(&mut rng, &inp, 2);
        assert!(covers(&r.g1, 2, &inp.front1, &inp.right1));
        assert!(covers(&r.g2, 2, &inp.front2, &inp.right2));
        assert!(r.score <= 2 * SCORE_UNIT);
        assert_eq!(r.score, score_of(&r.g1, &r.g2));
        let (s1, s2) = (sizes_by_label(&r.g1), sizes_by_label(&r.g2));
        assert!(s1.len() >= 1 && s2.len() >= 1);
        let total1: usize = s1.iter().map(|e| e.1).sum();
        let total2: usize = s2.iter().map(|e| e.1).sum();
        for &(l, n) in s1.iter() {
            if s2.iter().all(|e| e.0 != l) {
                assert!(n <= total2);
            }
        }
        for &(l, n) in s2.iter() {
            if s1.iter().all(|e| e.0 != l) {
                assert!(n <= total1);
            }
        }
    }
}

#[test]
fn small_and_large_instances_finish_in_time() {
    for &d in [5usize, 14].iter() {
        let mut rng = Mcg128Xsl64::new(3);
        let begin = Instant::now();
        let inp = SolveInput {
            start: begin,
            limit: 200 * MILLI,
            front1: full(d, true),
            right1: full(d, true),
            front2: full(d, true),
            right2: full(d, true),
            params: params(1, 5, 50),
        };
        let r = mc_solve(&mut rng, &inp, d as u8);
        assert!(r.run_count >= 1);
        assert!(begin.elapsed().as_millis() < 15000);
        assert!(covers(&r.g1, d, &inp.front1, &inp.right1));
    }
}

#[test]
fn a_run_makes_at_least_one_step() {
    let (mut grid, h1, h2) = system(PILLARS);
    let mut best = SolveResult::worst();
    let mut rng = Mcg128Xsl64::new(2);
    let start = Instant::now() - std::time::Duration::from_millis(5);
    let fresh = grid.clone();
    let steps = mc_run(start, 0, &mut rng, &h1, &h2, &mut grid, &mut best, params(1, 0, 0));
    assert_eq!(steps, 1);
    assert_eq!(best.score, NO_SCORE);
    assert!(best.g1.is_empty());
    assert_eq!(grid.grid_1, fresh.grid_1);
    assert_eq!(grid.grid_2, fresh.grid_2);
    assert!(grid.block.shared.is_empty());
}

#[test]
fn a_run_ends_when_its_time_is_over() {
    let (mut grid, h1, h2) = system(PILLARS);
    let mut best = SolveResult::worst();
    let mut rng = Mcg128Xsl64::new(2);
    let begin = Instant::now();
    let steps =
        mc_run(begin, 20 * MILLI, &mut rng, &h1, &h2, &mut grid, &mut best, params(1, 0, 0));
    assert!(begin.elapsed().as_millis() >= 20);
    assert!(steps >= 256);
    assert_eq!(steps % 256, 0);
    assert_eq!(best.score, SCORE_UNIT / 2);
    assert_eq!(best.run_count, 0);
}

#[test]
fn first_step_is_kept_and_an_equal_step_is_not() {
    let (mut grid, h1, h2) = system(PILLARS);
    let mut best = SolveResult::worst();
    let mut rng = Mcg128Xsl64::new(2);
    let p = params(1, 0, 0);
    let (score, kept) = mc_step(&mut rng, &h1, &h2, &mut grid, &mut best, p, NO_SCORE, true);
    assert!(kept);
    assert_eq!(score, SCORE_UNIT / 2);
    assert_eq!(best.score, score);
    let (again, kept) = mc_step(&mut rng, &h1, &h2, &mut grid, &mut best, p, score, true);
    assert!(!kept);
    assert_eq!(again, score);
}

#[test]
fn a_step_that_is_not_kept_goes_back() {
    for seed in 0..20 {
        let (mut grid, h1, h2) = system(STAIRS);
        let mut best = SolveResult::worst();
        let mut rng = Mcg128Xsl64::new(seed);
        let p = params(1, 0, 100);
        let (score, kept) = mc_step(&mut rng, &h1, &h2, &mut grid, &mut best, p, NO_SCORE, true);
        assert!(kept);
        let mut score = score;
        let mut need_erase = true;
        for _ in 0..30 {
            let before = grid.clone();
            let before_best = (best.g1.clone(), best.g2.clone(), best.score);
            let (next, kept) =
                mc_step(&mut rng, &h1, &h2, &mut grid, &mut best, p, score, need_erase);
            if kept {
                assert!(next < score);
                assert_eq!(best.score, next);
            } else {
                assert_eq!(next, score);
                assert_eq!((best.g1.clone(), best.g2.clone(), best.score), before_best);
                if !need_erase {
                    assert_eq!(grid.grid_1, before.grid_1);
                    assert_eq!(grid.grid_2, before.grid_2);
                    assert_eq!(grid.block.shared, before.block.shared);
                    assert_eq!(grid.block.shared_id_stock, before.block.shared_id_stock);
                } else {
                    assert_eq!(grid.block.shared.len(), before.block.shared.len());
                    assert!(grid.block.half1.is_empty());
                }
            }
            score = next;
            need_erase = kept;
        }
    }
}

#[test]
fn steps_with_the_same_seed_repeat() {
    let mut runs = Vec::new();
    for _ in 0..2 {
        let (mut grid, h1, h2) = system(UNEQUAL);
        let mut best = SolveResult::worst();
        let mut rng = Mcg128Xsl64::new(1234);
        let p = params(1, 1, 50);
        let mut score = NO_SCORE;
        let mut need_erase = true;
        let mut trace = Vec::new();
        for _ in 0..200 {
            let (next, kept) =
                mc_step(&mut rng, &h1, &h2, &mut grid, &mut best, p, score, need_erase);
            trace.push((next, kept));
            score = next;
            need_erase = kept;
        }
        runs.push((best.g1, best.g2, best.score, trace));
    }
    assert_eq!(runs[0], runs[1]);
}

#[test]
fn a_certain_erasure_takes_a_shared_block_out() {
    let (mut grid, h1, h2) = system(PILLARS);
    let mut best = SolveResult::worst();
    let mut rng = Mcg128Xsl64::new(2);
    mc_step(&mut rng, &h1, &h2, &mut grid, &mut best, params(1, 0, 0), NO_SCORE, true);
    assert_eq!(grid.block.shared.len(), 1);
    let before = grid.clone();
    grid.erase_shared(&mut rng, Chance { numerator: 0, denominator: 100 });
    assert_eq!(grid.grid_1, before.grid_1);
    assert_eq!(grid.block.shared, before.block.shared);
    grid.erase_shared(&mut rng, Chance { numerator: 100, denominator: 100 });
    assert!(grid.block.shared.is_empty());
    assert_eq!(grid.block.shared_id_stock, vec![1]);
    assert_eq!(grid.grid_1.grid.data.iter().filter(|&&l| l == 1).count(), 0);
    assert_eq!(grid.grid_2.grid.data.iter().filter(|&&l| l == 1).count(), 0);
    grid.erase_shared(&mut rng, Chance { numerator: 100, denominator: 100 });
    assert!(grid.block.shared.is_empty());
}

#[test]
fn an_uncertain_erasure_goes_both_ways() {
    let mut erased = 0;
    for seed in 0..200 {
        let (mut grid, h1, h2) = system(PILLARS);
        let mut best = SolveResult::worst();
        let mut rng = Mcg128Xsl64::new(seed);
        mc_step(&mut rng, &h1, &h2, &mut grid, &mut best, params(1, 0, 0), NO_SCORE, true);
        grid.erase_shared(&mut rng, Chance { numerator: 50, denominator: 100 });
        if grid.block.shared.is_empty() {
            erased += 1;
        }
    }
    assert!(erased > 50 && erased < 150);
}

#[test]
fn erase_half_takes_single_blocks_and_small_shared_blocks_out() {
    let (mut grid, _, _) = system(CUBES);
    for (i, size) in [1u8, 3, 2].iter().enumerate() {
        let id = grid.block.gen_shared_block_id();
        let v: Vec<Point> = (0..*size).map(|x| Point::new(x, i as u8, 0)).collect();
        for &p in v.iter() {
            grid.grid_1.put(p, id);
            grid.grid_2.put(p, id);
        }
        grid.block.push_shared(id, v.clone(), v);
    }
    let half = grid.block.gen_half_block_id();
    grid.grid_1.put(Point::new(0, 0, 2), half);
    grid.block.push_half(1, Point::new(0, 0, 2));
    let other = grid.block.gen_half_block_id();
    grid.grid_2.put(Point::new(1, 1, 2), other);
    grid.block.push_half(2, Point::new(1, 1, 2));
    let mut kept = grid.clone();
    kept.erase_half(0);
    assert_eq!(kept.block.shared.len(), 3);
    assert!(kept.block.half1.is_empty() && kept.block.half2.is_empty());
    assert_eq!(kept.grid_1.label(Point::new(0, 0, 2)), 0);
    assert_eq!(kept.grid_2.label(Point::new(1, 1, 2)), 0);
    assert_eq!(kept.grid_1.label(Point::new(0, 0, 0)), 1);
    grid.erase_half(2);
    assert_eq!(grid.block.shared.iter().map(|e| e.0).collect::<Vec<_>>(), vec![2]);
    assert_eq!(grid.block.shared_id_stock, vec![1, 3]);
    assert_eq!(grid.grid_1.grid.data.iter().filter(|&&l| l != 0).count(), 3);
    assert_eq!(grid.grid_2.grid.data.iter().filter(|&&l| l != 0).count(), 3);
    assert_eq!(grid.block.gen_half_block_id(), 10000);
}

#[test]
fn snapshot_is_a_copy() {
    let (mut grid, h1, h2) = system(STAIRS);
    let mut best = SolveResult::worst();
    let mut rng = Mcg128Xsl64::new(2);
    mc_step(&mut rng, &h1, &h2, &mut grid, &mut best, params(1, 0, 0), NO_SCORE, true);
    let copy = grid.snapshot();
    assert_eq!(copy.grid_1, grid.grid_1);
    assert_eq!(copy.grid_2, grid.grid_2);
    assert_eq!(copy.block.shared, grid.block.shared);
    assert_eq!(copy.block.half1, grid.block.half1);
    grid.erase_half(100);
    assert_ne!(copy.grid_1, grid.grid_1);
}

#[test]
fn stairs_can_be_shared_whole() {
    let mut whole = 0;
    for seed in 0..50 {
        let (mut grid, h1, h2) = system(STAIRS);
        let mut best = SolveResult::worst();
        let mut rng = Mcg128Xsl64::new(seed);
        mc_run(Instant::now(), 5 * MILLI, &mut rng, &h1, &h2, &mut grid, &mut best, params(1, 0, 0));
        let total: usize = grid.block.shared.iter().map(|e| e.1.len()).sum::<usize>()
            + grid.block.half1.len();
        assert_eq!(total, 3);
        if grid.block.shared.len() == 1 {
            whole += 1;
            assert_eq!(best.score, SCORE_UNIT / 3);
            let (_, v1, v2) = &grid.block.shared[0];
            let mut a = v1.clone();
            let mut b = v2.clone();
            a.sort();
            b.sort();
            assert_eq!(a, vec![Point::new(0, 0, 0), Point::new(0, 0, 1), Point::new(1, 0, 1)]);
            assert_eq!(b, vec![Point::new(0, 0, 0), Point::new(0, 0, 1), Point::new(0, 1, 1)]);
            assert!(carried(v1, v2));
        }
    }
    assert!(whole > 0);
}

#[test]
fn a_result_shows_forbidden_voxels_as_empty() {
    assert_eq!(
        ahc019::search::show_labels(&vec![0, 3, 0xFFFF, 10000, 0xFFFE]),
        vec![0, 3, 0, 10000, 0xFFFE]
    );
}

#[test]
fn time_is_divided_in_whole_milliseconds() {
    assert_eq!(ahc019::sub_budget(10 * MILLI, 1, 3), Some(3 * MILLI));
    assert_eq!(ahc019::sub_budget(5800 * MILLI, 0, 45), Some(128 * MILLI));
    assert_eq!(ahc019::sub_budget(5800 * MILLI, 5799 * MILLI + 1, 1), Some(0));
    assert_eq!(ahc019::sub_budget(2 * MILLI, MILLI, 1), Some(MILLI));
    assert_eq!(ahc019::sub_budget(2 * MILLI, MILLI, 2), Some(0));
}

#[test]
fn no_time_is_left_at_the_limit() {
    assert_eq!(ahc019::sub_budget(0, 0, 1), None);
    assert_eq!(ahc019::sub_budget(7, 7, 2), None);
    assert_eq!(ahc019::sub_budget(7, 8, 2), None);
    assert_eq!(ahc019::sub_budget(8, 7, 2), Some(0));
}

#[test]
fn erasing_at_a_position_takes_that_block_out() {
    let (mut grid, _, _) = system(CUBES);
    for (i, size) in [1u8, 3, 2].iter().enumerate() {
        let id = grid.block.gen_shared_block_id();
        let v: Vec<Point> = (0..*size).map(|x| Point::new(x, i as u8, 0)).collect();
        for &p in v.iter() {
            grid.grid_1.put(p, id);
            grid.grid_2.put(p, id);
        }
        grid.block.push_shared(id, v.clone(), v);
    }
    grid.erase_shared_at(1);
    assert_eq!(grid.block.shared.iter().map(|e| e.0).collect::<Vec<_>>(), vec![1, 3]);
    assert_eq!(grid.block.shared_id_stock, vec![2]);
    assert_eq!(grid.grid_1.grid.data.iter().filter(|&&l| l == 2).count(), 0);
    assert_eq!(grid.grid_2.grid.data.iter().filter(|&&l| l == 2).count(), 0);
    assert_eq!(grid.grid_1.grid.data.iter().filter(|&&l| l != 0).count(), 3);
    assert_eq!(grid.grid_1.label(Point::new(0, 0, 0)), 1);
    assert_eq!(grid.grid_2.label(Point::new(1, 2, 0)), 3);
}
