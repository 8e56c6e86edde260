use sim_core::los_cache::{Endpoints, Key, LosCache, TargetKind};

/// The exact-comparison key of one float coordinate: its bits, with -0 folded onto +0.
fn bits(x: f32) -> u32 {
    if x == 0.0 {
        0
    } else {
        x.to_bits()
    }
}

fn endpoints(a: (f32, f32), h_a: f32, b: (f32, f32), h_b: f32) -> Endpoints {
    let all = [a.0, a.1, h_a, b.0, b.1, h_b];
    Endpoints {
        a_x: bits(a.0),
        a_y: bits(a.1),
        h_a: bits(h_a),
        b_x: bits(b.0),
        b_y: bits(b.1),
        h_b: bits(h_b),
        comparable: all.iter().all(|v| !v.is_nan()),
    }
}

fn at(bx: f32) -> Endpoints {
    endpoints((1.0, 2.0), 2.0, (bx, 40.0), 1.8)
}

const KEY: Key = Key { sensor: 1, kind: TargetKind::Ground, target: 2 };

#[test]
fn a_hit_needs_exactly_equal_endpoints() {
    let mut c: LosCache<f32> = LosCache::new();
    c.fit(3, 4, 0);
    c.put(KEY, at(30.0), 0.5);

    assert_eq!(c.get(KEY, at(30.0)), Some(0.5));

    // One ulp of movement is still movement.
    let nudged = 30.0f32 + f32::EPSILON * 30.0;
    assert_ne!(nudged, 30.0, "test needs a genuinely different float");
    assert!(c.get(KEY, at(nudged)).is_none(), "moved target must miss");
}

#[test]
fn other_pairs_do_not_share_a_slot() {
    let mut c: LosCache<f32> = LosCache::new();
    c.fit(3, 4, 2);
    c.put(KEY, at(30.0), 0.5);

    // Same index, different list: ground 2 and air 2 are different assets.
    let air = Key { kind: TargetKind::Air, ..KEY };
    assert!(c.get(air, at(30.0)).is_none());
    // Same target, different sensor.
    let other = Key { sensor: 0, ..KEY };
    assert!(c.get(other, at(30.0)).is_none());
}

#[test]
fn resizing_the_asset_lists_forgets_everything() {
    let mut c: LosCache<f32> = LosCache::new();
    c.fit(3, 4, 0);
    c.put(KEY, at(30.0), 0.5);
    assert!(c.get(KEY, at(30.0)).is_some());

    // Placing a unit renumbers the table, so old contents are meaningless.
    c.fit(3, 5, 0);
    assert!(c.get(KEY, at(30.0)).is_none());
}

#[test]
fn out_of_range_indices_are_ignored_rather_than_panicking() {
    let mut c: LosCache<f32> = LosCache::new();
    c.fit(1, 1, 0);
    let wild = Key { sensor: 99, kind: TargetKind::Ground, target: 99 };
    c.put(wild, at(30.0), 0.5); // must not panic
    assert!(c.get(wild, at(30.0)).is_none());
}

#[test]
fn refitting_to_the_same_shape_keeps_the_answers() {
    let mut c: LosCache<f32> = LosCache::new();
    c.fit(2, 2, 1);
    let air = Key { sensor: 1, kind: TargetKind::Air, target: 0 };
    c.put(air, at(7.0), 0.25);
    c.fit(2, 2, 1);
    assert_eq!(c.get(air, at(7.0)), Some(0.25));
}

#[test]
fn negative_zero_hits_and_not_a_number_never_does() {
    let mut c: LosCache<u8> = LosCache::new();
    c.fit(2, 3, 0);
    c.put(KEY, endpoints((0.0, 1.0), 2.0, (3.0, 4.0), 1.0), 9);
    // -0.0 == 0.0 as floats, so it is the same query.
    assert_eq!(c.get(KEY, endpoints((-0.0, 1.0), 2.0, (3.0, 4.0), 1.0)), Some(9));
    c.put(KEY, endpoints((f32::NAN, 1.0), 2.0, (3.0, 4.0), 1.0), 7);
    assert_eq!(c.get(KEY, endpoints((f32::NAN, 1.0), 2.0, (3.0, 4.0), 1.0)), None);
}

#[test]
fn hits_and_misses_are_counted_and_cleared() {
    let mut c: LosCache<f32> = LosCache::new();
    c.fit(3, 4, 0);
    assert!(c.get(KEY, at(30.0)).is_none());
    c.put(KEY, at(30.0), 1.0);
    assert!(c.get(KEY, at(30.0)).is_some());
    assert!(c.get(KEY, at(30.0)).is_some());
    assert_eq!(c.stats(), (2, 1));
    c.clear();
    assert_eq!(c.stats(), (0, 0));
    assert!(c.get(KEY, at(30.0)).is_none());
}
