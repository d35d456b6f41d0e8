use partikl::geometry::{isqrt, round_div_i64, trunc_div_i128, Vec2, UNIT};
use partikl::region::SimRegion;

const U: i64 = UNIT;

fn sorted(mut v: Vec<usize>) -> Vec<usize> {
    v.sort();
    v
}

#[test]
fn rounding_division_goes_half_away_from_zero() {
    assert_eq!(round_div_i64(20, 40), 1);
    assert_eq!(round_div_i64(19, 40), 0);
    assert_eq!(round_div_i64(-20, 40), -1);
    assert_eq!(round_div_i64(-19, 40), 0);
    assert_eq!(round_div_i64(100, 40), 3);
    assert_eq!(trunc_div_i128(-7, 2), -3);
    assert_eq!(trunc_div_i128(7, 2), 3);
}

#[test]
fn integer_square_root_rounds_down() {
    assert_eq!(isqrt(0), 0);
    assert_eq!(isqrt(15), 3);
    assert_eq!(isqrt(16), 4);
    assert_eq!(isqrt(1_600_000_000_000_000), 40_000_000);
    assert_eq!(isqrt(1_599_999_999_999_999), 39_999_999);
}

#[test]
fn bucket_coords_round_to_nearest_bucket() {
    let region = SimRegion::new(1000 * U, 1000 * U, 40 * U);
    assert_eq!(region.bucket_coords(0, 0), (0, 0));
    assert_eq!(region.bucket_coords(20 * U, -20 * U), (1, -1));
    assert_eq!(region.bucket_coords(20 * U - 1, -20 * U + 1), (0, 0));
    assert_eq!(region.bucket_coords(95 * U, 61 * U), (2, 2));
}

#[test]
fn new_region_halves_the_extent() {
    let region = SimRegion::new(2560 * U, 1441, 40 * U);
    assert_eq!(region.top_right, Vec2::new(1280 * U, 720));
    assert_eq!(region.granularity, 40 * U);
    assert!(region.get_entities((0, 0)).is_empty());
}

#[test]
fn corrected_delta_takes_the_short_way_round() {
    let region = SimRegion::new(100 * U, 100 * U, 40 * U);
    let d = region.get_corrected_position_delta(Vec2::new(49 * U, 0), Vec2::new(-49 * U, 0));
    assert_eq!(d, Vec2::new(2 * U, 0));
    let d = region.get_corrected_position_delta(Vec2::new(-49 * U, 0), Vec2::new(49 * U, 0));
    assert_eq!(d, Vec2::new(-2 * U, 0));
    let d = region.get_corrected_position_delta(Vec2::new(0, 40 * U), Vec2::new(10 * U, -45 * U));
    assert_eq!(d, Vec2::new(10 * U, 15 * U));
    let d = region.get_corrected_position_delta(Vec2::new(0, 0), Vec2::new(30 * U, -20 * U));
    assert_eq!(d, Vec2::new(30 * U, -20 * U));
}

#[test]
fn corrected_delta_stays_within_half_extents() {
    let region = SimRegion::new(100 * U, 60 * U, 40 * U);
    let points = [
        Vec2::new(-50 * U, -30 * U),
        Vec2::new(50 * U, 30 * U),
        Vec2::new(49 * U, -29 * U),
        Vec2::new(0, 0),
        Vec2::new(-17 * U, 22 * U),
    ];
    for p in points.iter() {
        for q in points.iter() {
            let d = region.get_corrected_position_delta(*p, *q);
            assert!(d.x.abs() <= 50 * U);
            assert!(d.y.abs() <= 30 * U);
        }
    }
}

#[test]
fn wrap_adjustment_shifts_by_one_period() {
    let region = SimRegion::new(100 * U, 60 * U, 40 * U);
    assert_eq!(region.get_wrap_around_adjustment(Vec2::new(51 * U, 0)), Vec2::new(-100 * U, 0));
    assert_eq!(region.get_wrap_around_adjustment(Vec2::new(-51 * U, -31 * U)), Vec2::new(100 * U, 60 * U));
    assert_eq!(region.get_wrap_around_adjustment(Vec2::new(50 * U, 30 * U)), Vec2::new(0, 0));
    assert_eq!(region.get_wrap_around_adjustment(Vec2::new(3, 31 * U)), Vec2::new(0, -60 * U));
}

#[test]
fn insert_then_query_finds_the_handle() {
    let mut region = SimRegion::new(1000 * U, 1000 * U, 40 * U);
    region.insert_entity(0, 0, 0);
    region.insert_entity(1, 41 * U, 0);
    region.insert_entity(2, 200 * U, 200 * U);
    assert_eq!(sorted(region.get_entities_by_position(0, 0)), vec![0, 1]);
    assert_eq!(sorted(region.get_entities((5, 5))), vec![2]);
    assert_eq!(sorted(region.get_entities((3, 3))), Vec::<usize>::new());
}

#[test]
fn remove_takes_the_handle_out() {
    let mut region = SimRegion::new(1000 * U, 1000 * U, 40 * U);
    region.insert_entity(0, 0, 0);
    region.insert_entity(1, 1, 1);
    region.insert_entity(2, 2, 2);
    region.remove_entity(0, 3, 3);
    assert_eq!(region.get_entities_by_position(0, 0), vec![2, 1]);
}

#[test]
fn move_within_a_bucket_changes_nothing() {
    let mut region = SimRegion::new(1000 * U, 1000 * U, 40 * U);
    region.insert_entity(0, 0, 0);
    region.insert_entity(1, 0, 0);
    region.move_entity(0, 0, 0, 19 * U, -19 * U);
    assert_eq!(region.get_entities((0, 0)), vec![0, 1]);
}

#[test]
fn move_across_buckets_keeps_the_index_consistent() {
    let mut region = SimRegion::new(1000 * U, 1000 * U, 40 * U);
    let mut pos = vec![(0, 0), (100 * U, 0), (-300 * U, 250 * U)];
    for (h, (x, y)) in pos.iter().enumerate() {
        region.insert_entity(h, *x, *y);
    }
    let moves = [(0usize, 400 * U, 400 * U), (1, -100 * U, 30 * U), (0, 41 * U, 0), (2, -299 * U, 251 * U)];
    for (h, x, y) in moves.iter() {
        let (ox, oy) = pos[*h];
        region.move_entity(*h, ox, oy, *x, *y);
        pos[*h] = (*x, *y);
    }
    for (h, (x, y)) in pos.iter().enumerate() {
        let b = region.bucket_coords(*x, *y);
        let key = (b.0 as i128) * (1i128 << 64) + b.1 as i128;
        let stored = region.index.get(&key).expect("bucket of the position");
        assert_eq!(stored.iter().filter(|e| **e == h).count(), 1);
        for (k, v) in region.index.iter() {
            if *k != key {
                assert!(!v.contains(&h));
            }
        }
    }
}

#[test]
fn mirrored_edge_particles_are_neighbours() {
    let mut region = SimRegion::new(2560 * U, 1440 * U, 40 * U);
    region.insert_entity(0, 1279 * U, 100 * U);
    region.insert_entity(1, -1279 * U, 100 * U);
    assert!(region.get_entities_by_position(1279 * U, 100 * U).contains(&1));
    assert!(region.get_entities_by_position(-1279 * U, 100 * U).contains(&0));
}

#[test]
fn mirrored_corner_particles_are_neighbours() {
    let mut region = SimRegion::new(2560 * U, 1440 * U, 40 * U);
    region.insert_entity(0, 1279 * U, 719 * U);
    region.insert_entity(1, -1279 * U, -719 * U);
    region.insert_entity(2, 1279 * U, -719 * U);
    region.insert_entity(3, -1279 * U, 719 * U);
    let seen = sorted(region.get_entities_by_position(1279 * U, 719 * U));
    assert_eq!(seen, vec![0, 1, 2, 3]);
    let seen = sorted(region.get_entities_by_position(-1279 * U, -719 * U));
    assert_eq!(seen, vec![0, 1, 2, 3]);
}

#[test]
fn interior_query_sees_the_three_by_three_block_only() {
    let mut region = SimRegion::new(1000 * U, 1000 * U, 40 * U);
    region.insert_entity(0, 40 * U, 40 * U);
    region.insert_entity(1, -40 * U, -40 * U);
    region.insert_entity(2, 80 * U, 0);
    assert_eq!(sorted(region.get_entities((0, 0))), vec![0, 1]);
}

#[test]
fn move_within_a_bucket_needs_no_stored_handle() {
    let mut region = SimRegion::new(1000 * U, 1000 * U, 40 * U);
    region.insert_entity(0, 0, 0);
    region.move_entity(5, 1, 1, 2, 2);
    assert_eq!(region.get_entities((0, 0)), vec![0]);
}

#[test]
fn new_region_has_no_buckets() {
    let region = SimRegion::new(100 * U, 100 * U, 40 * U);
    assert!(region.index.is_empty());
}
