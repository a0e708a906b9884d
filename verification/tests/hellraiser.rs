use raisehell::{chances_of_hit, how_many_hellraisers, simulate_hellraiser_trigger, DistError};

fn comb3(n: u128) -> u128 {
    if n < 3 {
        0
    } else {
        n * (n - 1) * (n - 2) / 6
    }
}

#[test]
fn test_hellraiser_count() {
    let triggers = 1;
    let gy_size = 15;
    let seasons = 3;
    let beacons = 1;
    let flameshapers = 1;

    let dist = how_many_hellraisers(triggers, gy_size, seasons, beacons, flameshapers).unwrap();
    // maximum outcome: 2*3 + 2*1 + 1 = 9
    assert_eq!(dist.mass.len(), 10);
    // the distribution sums to one, exactly
    let sum: u128 = dist.mass.iter().sum();
    assert_eq!(sum, dist.total);
    // some probability of no hit at all
    assert!(dist.mass[0] > 0);
    // and the float view sums to one within tolerance
    let fsum: f64 = dist.mass.iter().map(|&m| m as f64 / dist.total as f64).sum();
    assert!((fsum - 1.0).abs() < 1e-9);
    for &m in dist.mass.iter() {
        assert!(m as f64 / dist.total as f64 >= 0.0);
    }
}

#[test]
fn test_hit_chances() {
    let hits = 2;
    let gy_size = 14;
    let triggers = 3;
    let chance = chances_of_hit(hits, gy_size, triggers).unwrap();
    // three resolved steps: pools 14, 11, 8
    let den = comb3(14) * comb3(11) * comb3(8);
    let num = comb3(12) * comb3(9) * comb3(6);
    assert_eq!(chance.total, den);
    assert_eq!(chance.hit, den - num);
}

#[test]
fn test_zero_triggers_point_mass() {
    let dist = how_many_hellraisers(0, 15, 3, 1, 1).unwrap();
    assert_eq!(dist.mass[0], dist.total);
    for o in 1..dist.mass.len() {
        assert_eq!(dist.mass[o], 0);
    }
}

#[test]
fn test_small_pool_point_mass() {
    // a pool of two items cannot feed a draw of three
    let dist = how_many_hellraisers(5, 2, 1, 1, 0).unwrap();
    assert_eq!(dist.total, 1);
    assert_eq!(dist.mass[0], 1);
    for o in 1..dist.mass.len() {
        assert_eq!(dist.mass[o], 0);
    }
}

#[test]
fn test_exact_tiny_pools() {
    // pool of three holding the one primary item: the draw always takes it
    let dist = how_many_hellraisers(1, 3, 1, 0, 0).unwrap();
    assert_eq!(dist.total, 1);
    assert_eq!(dist.mass, vec![0, 0, 1]);
    // pool of four: the all-filler draw misses 1 time in 4
    let dist = how_many_hellraisers(1, 4, 1, 0, 0).unwrap();
    assert_eq!(dist.total, 4);
    assert_eq!(dist.mass, vec![1, 0, 3]);
}

#[test]
fn test_cross_check_closed_form() {
    // one trigger, one primary item, no toggles or secondaries: the mass at
    // zero is the sequential miss probability
    let dist = how_many_hellraisers(1, 12, 1, 0, 0).unwrap();
    let chance = chances_of_hit(1, 12, 1).unwrap();
    // mass[0] / total == miss / den  with  miss = den - hit
    let miss = chance.total - chance.hit;
    assert_eq!(dist.mass[0] * chance.total, miss * dist.total);
    // and for no primary items at all the hit chance is zero
    let dist0 = how_many_hellraisers(1, 12, 0, 0, 0).unwrap();
    let chance0 = chances_of_hit(0, 12, 1).unwrap();
    assert_eq!(chance0.hit, 0);
    assert_eq!(dist0.mass[0], dist0.total);
}

#[test]
fn test_scenario_two_secondaries() {
    // two secondary items, one trigger: a hit grants a new trigger, so a
    // second hit is possible and the distribution spans {0, 1, 2}
    let dist = how_many_hellraisers(1, 14, 0, 0, 2).unwrap();
    assert_eq!(dist.mass.len(), 3);
    let sum: u128 = dist.mass.iter().sum();
    assert_eq!(sum, dist.total);
    // the no-hit mass matches the single-step miss probability
    let chance = chances_of_hit(2, 14, 1).unwrap();
    assert_eq!(dist.mass[0] * chance.total, (chance.total - chance.hit) * dist.total);
    // and the total hit mass matches the hit probability
    assert_eq!((dist.mass[1] + dist.mass[2]) * chance.total, chance.hit * dist.total);
    assert!(dist.mass[2] > 0);
}

#[test]
fn test_terminal_root_needs_no_denominator() {
    // zero triggers on an enormous pool: terminal at once, a point mass
    let dist = how_many_hellraisers(0, 4000000000, 3, 1, 1).unwrap();
    assert_eq!(dist.total, 1);
    assert_eq!(dist.mass[0], 1);
    assert_eq!(dist.mass.len(), 10);
    // no primary and no secondary items: nothing can ever score
    let dist = how_many_hellraisers(2, 1000000, 0, 4, 0).unwrap();
    assert_eq!(dist.total, 1);
    assert_eq!(dist.mass.len(), 9);
    assert_eq!(dist.mass[0], 1);
}

#[test]
fn test_pool_errors() {
    // categories exceed the pool: rejected up front
    assert_eq!(how_many_hellraisers(1, 5, 4, 2, 0).unwrap_err(), DistError::PoolMismatch);
    // a pool too large for the exact denominator
    assert_eq!(how_many_hellraisers(1, 100, 1, 0, 0).unwrap_err(), DistError::PoolTooLarge);
    // the sequential helper reports the same condition as absence
    assert!(chances_of_hit(1, 300, 90).is_none());
}

#[test]
fn test_chances_edge_cases() {
    // no marked items: no chance of a hit, whatever the schedule
    let chance = chances_of_hit(0, 14, 3).unwrap();
    assert_eq!(chance.hit, 0);
    // pool below draw size with a marked item: a sure hit by convention
    let chance = chances_of_hit(1, 2, 1).unwrap();
    assert_eq!(chance.total, 1);
    assert_eq!(chance.hit, 1);
    // zero triggers: nothing is drawn
    let chance = chances_of_hit(3, 14, 0).unwrap();
    assert_eq!(chance.total, 1);
    assert_eq!(chance.hit, 0);
}

#[test]
fn test_simulate_trigger() {
    // no marked items: never a hit
    for _ in 0..20 {
        assert!(!simulate_hellraiser_trigger(0, 5));
    }
    // every item marked: always a hit
    for _ in 0..20 {
        assert!(simulate_hellraiser_trigger(3, 3));
    }
    // fewer than three unmarked items: every three-item draw must hit
    for _ in 0..20 {
        assert!(simulate_hellraiser_trigger(8, 10));
    }
    // mixed pools run without trouble
    for _ in 0..50 {
        let _ = simulate_hellraiser_trigger(2, 10);
    }
}
