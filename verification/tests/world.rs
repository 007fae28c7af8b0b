use my_library::world::MarsWorld;
use my_library::RandomNumberGenerator;

fn open_tiles(world: &MarsWorld) -> Vec<(usize, usize)> {
    let mut open = Vec::new();
    for y in 0..world.height() {
        for x in 0..world.width() {
            if !world.is_solid(x, y) {
                open.push((x, y));
            }
        }
    }
    open
}

#[test]
fn mapidx_is_row_major() {
    let world = MarsWorld::all_solid(20, 15);
    assert_eq!(world.mapidx(3, 2), 43);
    assert_eq!(world.mapidx(0, 0), 0);
    assert_eq!(world.mapidx(19, 14), 299);
}

#[test]
fn all_solid_world_counts_every_tile() {
    let world = MarsWorld::all_solid(12, 11);
    assert_eq!(world.solid_count(), 132);
    assert!(!world.digging_done());
}

#[test]
fn blast_opens_the_nine_tiles_around_an_inner_tile() {
    let mut world = MarsWorld::all_solid(10, 10);
    world.clear_tiles(5, 5);
    let mut expected = Vec::new();
    for y in 4..=6 {
        for x in 4..=6 {
            expected.push((x, y));
        }
    }
    assert_eq!(open_tiles(&world), expected);
    assert_eq!(world.solid_count(), 91);
}

#[test]
fn blast_in_a_corner_keeps_the_borders() {
    let mut world = MarsWorld::all_solid(10, 10);
    world.clear_tiles(0, 0);
    assert_eq!(open_tiles(&world), vec![(1, 1)]);
    let mut world = MarsWorld::all_solid(10, 10);
    world.clear_tiles(9, 9);
    assert_eq!(open_tiles(&world), vec![(8, 8), (8, 9)]);
}

#[test]
fn blast_far_outside_does_nothing() {
    let mut world = MarsWorld::all_solid(10, 10);
    world.clear_tiles(usize::MAX, 3);
    world.clear_tiles(4, usize::MAX);
    assert_eq!(world.solid_count(), 100);
}

#[test]
fn blasting_twice_is_blasting_once() {
    let mut once = MarsWorld::all_solid(10, 10);
    once.clear_tiles(3, 7);
    let mut twice = MarsWorld::all_solid(10, 10);
    twice.clear_tiles(3, 7);
    twice.clear_tiles(3, 7);
    assert_eq!(open_tiles(&once), open_tiles(&twice));
}

#[test]
fn clear_line_carves_a_horizontal_tunnel() {
    let mut world = MarsWorld::all_solid(10, 10);
    world.clear_line((2, 5), (8, 5));
    let mut expected = Vec::new();
    for y in 4..=6 {
        for x in 1..=8 {
            expected.push((x, y));
        }
    }
    assert_eq!(open_tiles(&world), expected);
}

#[test]
fn clear_line_to_itself_stops_at_once() {
    let mut world = MarsWorld::all_solid(10, 10);
    world.clear_line((4, 4), (4, 4));
    assert_eq!(world.solid_count(), 100);
}

#[test]
fn clear_line_from_the_border_does_nothing() {
    let mut world = MarsWorld::all_solid(10, 10);
    world.clear_line((0, 5), (8, 5));
    assert_eq!(world.solid_count(), 100);
}

#[test]
fn dig_toward_blasts_the_first_solid_tile() {
    let mut world = MarsWorld::all_solid(10, 10);
    world.dig_toward((5, 5), (5, 8));
    assert!(!world.is_solid(5, 5));
    assert!(!world.is_solid(5, 6));
    assert!(world.is_solid(5, 7));
    world.dig_toward((5, 5), (5, 8));
    assert!(!world.is_solid(5, 7));
    assert!(!world.is_solid(5, 8));
    assert!(world.is_solid(5, 9));
}

#[test]
fn dig_toward_that_leaves_the_grid_digs_nothing() {
    let mut world = MarsWorld::all_solid(10, 10);
    world.clear_tiles(5, 5);
    world.clear_tiles(5, 8);
    let before = open_tiles(&world);
    world.dig_toward((5, 5), (5, 20));
    assert!(!world.is_solid(5, 9));
    assert_eq!(open_tiles(&world), before);
}

#[test]
fn find_random_closed_tile_finds_the_only_solid_tile() {
    let mut world = MarsWorld::all_solid(3, 3);
    let mut rng = RandomNumberGenerator::seeded(3);
    let (x, y) = world.find_random_closed_tile(&mut rng);
    assert!(world.is_solid(x, y));
    world.clear_tiles(1, 1);
    for _ in 0..20 {
        let (x, y) = world.find_random_closed_tile(&mut rng);
        assert!(world.is_solid(x, y));
        assert!(x < 3 && y < 3);
    }
}

#[test]
fn new_world_keeps_borders_and_opens_the_borehole() {
    let mut rng = RandomNumberGenerator::seeded(42);
    let world = MarsWorld::new(200, 200, &mut rng);
    assert_eq!(world.width(), 200);
    assert_eq!(world.height(), 200);
    for y in 0..200 {
        assert!(world.is_solid(0, y));
        assert!(world.is_solid(199, y));
    }
    for x in 0..200 {
        assert!(world.is_solid(x, 0));
    }
    for y in 99..200 {
        for x in 99..=101 {
            assert!(!world.is_solid(x, y));
        }
    }
    assert!(world.digging_done());
    assert!(world.solid_count() * 5 < 3 * 200 * 200);
}

#[test]
fn new_small_world() {
    let mut rng = RandomNumberGenerator::seeded(1);
    let world = MarsWorld::new(11, 11, &mut rng);
    assert!(world.digging_done());
    assert!(!world.is_solid(5, 5));
    assert!(world.is_solid(0, 0));
}

#[test]
fn new_small_world_blasts_its_holes_and_stops_digging_below_three_fifths() {
    for seed in 0..5 {
        let mut rng = RandomNumberGenerator::seeded(seed);
        let world = MarsWorld::new(11, 11, &mut rng);
        // Every hole of an eleven by eleven world lies at (5, 5): its five
        // blasts open the columns 2..=8 on rows 4..=6 and the rows 2..=8 on
        // columns 4..=6.
        for y in 4..=6 {
            for x in 2..=8 {
                assert!(!world.is_solid(x, y));
            }
        }
        for y in 2..=8 {
            for x in 4..=6 {
                assert!(!world.is_solid(x, y));
            }
        }
        for y in 4..11 {
            for x in 4..=6 {
                assert!(!world.is_solid(x, y));
            }
        }
        let solid = world.solid_count();
        assert!(solid * 5 < 3 * 121);
        assert!((64..=72).contains(&solid));
    }
}

#[test]
fn new_world_is_reproducible_from_the_seed() {
    let mut a = RandomNumberGenerator::seeded(3);
    let mut b = RandomNumberGenerator::seeded(3);
    let wa = MarsWorld::new(40, 30, &mut a);
    let wb = MarsWorld::new(40, 30, &mut b);
    for y in 0..30 {
        for x in 0..40 {
            assert_eq!(wa.is_solid(x, y), wb.is_solid(x, y));
        }
    }
    assert_eq!(a.next::<u64>(), b.next::<u64>());
}

#[test]
fn random_closed_tile_is_reproducible_from_the_seed() {
    let mut rng = RandomNumberGenerator::seeded(9);
    let world = MarsWorld::new(20, 20, &mut rng);
    let mut a = RandomNumberGenerator::seeded(11);
    let mut b = RandomNumberGenerator::seeded(11);
    for _ in 0..10 {
        let ta = world.find_random_closed_tile(&mut a);
        let tb = world.find_random_closed_tile(&mut b);
        assert_eq!(ta, tb);
        assert!(world.is_solid(ta.0, ta.1));
    }
    assert_eq!(a.next::<u32>(), b.next::<u32>());
}

#[test]
fn digging_towards_its_own_solid_start_blasts_it() {
    let mut world = MarsWorld::all_solid(7, 7);
    world.dig_toward((3, 3), (3, 3));
    for y in 2..=4 {
        for x in 2..=4 {
            assert!(!world.is_solid(x, y));
        }
    }
    assert!(world.is_solid(1, 1));
    assert!(world.is_solid(5, 5));
}
