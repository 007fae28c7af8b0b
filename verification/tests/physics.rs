use my_library::physics::{
    dedupe_by_source, physics_clock, resolve_impulses, sum_impulses, ClockAction, ImpulseKey,
    PhysicsTimer, PHYSICS_TICK_TIME,
};

fn key(target: u64, absolute: bool, source: i32) -> ImpulseKey {
    ImpulseKey { target, absolute, source }
}

#[test]
fn clock_interpolates_then_ticks() {
    let mut clock = PhysicsTimer::default();
    assert_eq!(clock.elapsed(), 0);
    assert_eq!(physics_clock(&mut clock, 16), ClockAction::Interpolate { elapsed: 16 });
    assert_eq!(physics_clock(&mut clock, 16), ClockAction::Interpolate { elapsed: 32 });
    assert_eq!(physics_clock(&mut clock, 1), ClockAction::Tick);
    assert_eq!(clock.elapsed(), 0);
    assert_eq!(physics_clock(&mut clock, 0), ClockAction::Interpolate { elapsed: 0 });
}

#[test]
fn clock_drops_the_rest_of_a_long_frame() {
    let mut clock = PhysicsTimer::default();
    assert_eq!(physics_clock(&mut clock, 100), ClockAction::Tick);
    assert_eq!(clock.elapsed(), 0);
    assert_eq!(PHYSICS_TICK_TIME, 33);
    assert_eq!(physics_clock(&mut clock, 32), ClockAction::Interpolate { elapsed: 32 });
}

#[test]
fn dedupe_keeps_the_last_impulse_of_each_source() {
    let impulses = vec![key(1, false, 1), key(2, false, 2), key(3, false, 1)];
    let mut order = dedupe_by_source(&impulses);
    order.sort();
    assert_eq!(order, vec![1, 2]);
}

#[test]
fn dedupe_of_nothing_is_nothing() {
    assert!(dedupe_by_source(&Vec::new()).is_empty());
}

#[test]
fn absolute_impulse_blocks_later_ones_to_its_target() {
    let impulses = vec![key(5, true, 0), key(5, false, 1), key(6, false, 2), key(5, true, 3)];
    let has_velocity = vec![true, true, true, true];
    assert_eq!(resolve_impulses(&impulses, &has_velocity, &vec![0, 1, 2, 3]), vec![0, 2]);
    assert_eq!(resolve_impulses(&impulses, &has_velocity, &vec![1, 2, 3, 0]), vec![1, 2, 3]);
}

#[test]
fn impulses_without_velocity_are_skipped() {
    let impulses = vec![key(5, true, 0), key(6, false, 1)];
    let has_velocity = vec![false, true];
    assert_eq!(resolve_impulses(&impulses, &has_velocity, &vec![0, 1]), vec![1]);
}

#[test]
fn sum_impulses_applies_each_relative_impulse_once() {
    let impulses = vec![key(7, false, 0), key(7, false, 1), key(8, false, 1)];
    let has_velocity = vec![true, true, true];
    let mut applied = sum_impulses(&impulses, &has_velocity);
    applied.sort();
    assert_eq!(applied, vec![0, 2]);
}

#[test]
fn sum_impulses_applies_one_absolute_per_target() {
    let impulses = vec![key(7, true, 0), key(7, true, 1), key(9, false, 2)];
    let has_velocity = vec![true, true, true];
    let applied = sum_impulses(&impulses, &has_velocity);
    assert_eq!(applied.len(), 2);
    assert!(applied.contains(&2));
    assert!(applied.contains(&0) != applied.contains(&1));
}

#[test]
fn each_source_applies_only_its_last_impulse() {
    let impulses = vec![
        key(1, false, 4),
        key(2, false, 4),
        key(3, true, 5),
        key(1, false, 6),
        key(4, false, 4),
    ];
    let has_velocity = vec![true; 5];
    let mut applied = sum_impulses(&impulses, &has_velocity);
    applied.sort();
    assert_eq!(applied, vec![2, 3, 4]);
}
