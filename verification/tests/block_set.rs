use ahc019::{BlockSet, Point, SCORE_UNIT};
use rand_pcg::Mcg128Xsl64;

fn line(n: u8) -> Vec<Point> {
    (0..n).map(|i| Point::new(i, 0, 0)).collect()
}

#[test]
fn new_catalogue_is_empty() {
    let b = BlockSet::new();
    assert!(b.shared.is_empty());
    assert!(b.half1.is_empty());
    assert!(b.half2.is_empty());
    assert_eq!(b.shared_only_score(), 0);
}

#[test]
fn default_catalogue_is_the_new_catalogue() {
    let mut b = BlockSet::default();
    assert!(b.shared.is_empty());
    assert_eq!(b.gen_shared_block_id(), 1);
    assert_eq!(b.gen_half_block_id(), 10000);
}

#[test]
fn shared_ids_count_up_from_one() {
    let mut b = BlockSet::new();
    let first = b.gen_shared_block_id();
    assert_eq!(first, 1);
    b.push_shared(first, line(1), line(1));
    let second = b.gen_shared_block_id();
    assert_eq!(second, 2);
    b.push_shared(second, line(2), line(2));
    assert_eq!(b.gen_shared_block_id(), 3);
}

#[test]
fn freed_shared_ids_are_used_again_last_first() {
    let mut b = BlockSet::new();
    for size in 1..=4u8 {
        let id = b.gen_shared_block_id();
        b.push_shared(id, line(size), line(size));
    }
    b.pop_shared(0);
    b.pop_shared(1);
    assert_eq!(b.shared.iter().map(|e| e.0).collect::<Vec<_>>(), vec![4, 3]);
    let id = b.gen_shared_block_id();
    assert_eq!(id, 2);
    b.push_shared(id, line(1), line(1));
    let id = b.gen_shared_block_id();
    assert_eq!(id, 1);
    b.push_shared(id, line(1), line(1));
    assert_eq!(b.gen_shared_block_id(), 5);
}

#[test]
fn half_ids_count_up_from_ten_thousand() {
    let mut b = BlockSet::new();
    assert_eq!(b.gen_half_block_id(), 10000);
    assert_eq!(b.gen_half_block_id(), 10001);
    b.half_reset();
    assert_eq!(b.gen_half_block_id(), 10000);
}

#[test]
fn push_half_sorts_by_place() {
    let mut b = BlockSet::new();
    b.push_half(1, Point::new(1, 1, 1));
    b.push_half(2, Point::new(2, 2, 2));
    b.push_half(1, Point::new(3, 3, 3));
    assert_eq!(b.half1, vec![Point::new(1, 1, 1), Point::new(3, 3, 3)]);
    assert_eq!(b.half2, vec![Point::new(2, 2, 2)]);
}

#[test]
fn half_reset_keeps_the_shared_blocks() {
    let mut b = BlockSet::new();
    b.push_shared(1, line(2), line(2));
    b.push_half(1, Point::new(1, 1, 1));
    b.push_half(2, Point::new(2, 2, 2));
    b.half_reset();
    assert!(b.half1.is_empty());
    assert!(b.half2.is_empty());
    assert_eq!(b.shared.len(), 1);
}

#[test]
fn pop_shared_moves_the_last_block_into_the_gap() {
    let mut b = BlockSet::new();
    for size in 1..=3u8 {
        let id = b.gen_shared_block_id();
        b.push_shared(id, line(size), line(size + 1));
    }
    let (v1, v2) = b.pop_shared(0);
    assert_eq!(v1, line(1));
    assert_eq!(v2, line(2));
    assert_eq!(b.shared.len(), 2);
    assert_eq!(b.shared[0].0, 3);
    assert_eq!(b.shared[1].0, 2);
    assert_eq!(b.shared_id_stock, vec![1]);
}

#[test]
fn pop_small_takes_the_first_small_block() {
    let mut b = BlockSet::new();
    for &size in [5u8, 2, 7, 1].iter() {
        let id = b.gen_shared_block_id();
        b.push_shared(id, line(size), line(size));
    }
    let (v1, _) = b.pop_small(2).unwrap();
    assert_eq!(v1.len(), 2);
    let (v1, _) = b.pop_small(2).unwrap();
    assert_eq!(v1.len(), 1);
    assert!(b.pop_small(2).is_none());
    assert_eq!(b.shared.iter().map(|e| e.1.len()).collect::<Vec<_>>(), vec![5, 7]);
    assert_eq!(b.shared_id_stock, vec![2, 4]);
}

#[test]
fn pop_small_takes_a_block_of_just_the_threshold() {
    let mut b = BlockSet::new();
    b.push_shared(1, line(3), line(3));
    assert!(b.pop_small(2).is_none());
    assert!(b.pop_small(3).is_some());
    assert!(b.pop_small(0).is_none());
}

#[test]
fn pop_random_takes_one_block_out() {
    let mut seen = Vec::new();
    for seed in 0..200 {
        let mut b = BlockSet::new();
        for size in 1..=4u8 {
            let id = b.gen_shared_block_id();
            b.push_shared(id, line(size), line(size));
        }
        let mut rng = Mcg128Xsl64::new(seed);
        let (v1, v2) = b.pop_random(&mut rng);
        assert_eq!(v1, v2);
        assert_eq!(b.shared.len(), 3);
        assert_eq!(b.shared_id_stock, vec![v1.len() as u16]);
        if !seen.contains(&v1.len()) {
            seen.push(v1.len());
        }
    }
    seen.sort();
    assert_eq!(seen, vec![1, 2, 3, 4]);
}

#[test]
fn shared_only_score_sums_the_shares() {
    let mut b = BlockSet::new();
    b.push_shared(1, line(1), line(1));
    assert_eq!(b.shared_only_score(), SCORE_UNIT);
    b.push_shared(2, line(2), line(2));
    b.push_shared(3, line(3), line(3));
    assert_eq!(b.shared_only_score(), SCORE_UNIT + SCORE_UNIT / 2 + SCORE_UNIT / 3);
    b.push_half(1, Point::new(5, 5, 5));
    assert_eq!(b.shared_only_score(), SCORE_UNIT + SCORE_UNIT / 2 + SCORE_UNIT / 3);
}

#[test]
fn shares_of_small_blocks_are_exact() {
    for size in 1..=30u64 {
        assert_eq!(SCORE_UNIT % size, 0);
        assert_eq!(ahc019::score::share_of(size as usize) * size, SCORE_UNIT);
    }
    assert_eq!(ahc019::score::share_of(31), SCORE_UNIT / 31);
    assert_eq!(ahc019::score::share_of(2744), 848793572);
}

#[test]
fn cost_of_a_single_object_block() {
    assert_eq!(ahc019::score::half_cost_of(1), 2 * SCORE_UNIT);
    assert_eq!(ahc019::score::half_cost_of(4), 4 * SCORE_UNIT + SCORE_UNIT / 4);
    assert_eq!(ahc019::score::half_cost_of(2744), 2744 * SCORE_UNIT + 848793572);
}

#[test]
fn reset_forgets_everything() {
    let mut b = BlockSet::new();
    b.push_shared(1, line(1), line(1));
    b.push_shared(2, line(1), line(1));
    b.pop_shared(0);
    b.push_half(1, Point::new(0, 0, 0));
    b.gen_half_block_id();
    b.reset();
    assert!(b.shared.is_empty());
    assert!(b.shared_id_stock.is_empty());
    assert!(b.half1.is_empty());
    assert_eq!(b.gen_shared_block_id(), 1);
    assert_eq!(b.gen_half_block_id(), 10000);
}
