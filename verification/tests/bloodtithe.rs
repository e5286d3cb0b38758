use gameserver::bloodtithe::{BASE_MAX, BloodtitheState, DAMAGE_PER_POINT, set_gain};

#[test]
fn bloodtithe_starts_empty() {
    let s = BloodtitheState::new();
    assert!(!s.has_bloodpool());
    assert_eq!(s.get_value(1), 0);
    assert_eq!(s.get_max(1), BASE_MAX);
    assert_eq!(s.get_acc(1), 0);
}

#[test]
fn bloodtithe_points_per_damage() {
    let mut s = BloodtitheState::new();
    assert_eq!(s.on_hp_lost(1, 1, 2999), None);
    assert_eq!(s.get_acc(1), 2999);
    assert_eq!(s.on_hp_lost(1, 1, 7001), Some(3));
    assert_eq!(s.get_value(1), 3);
    assert_eq!(s.get_acc(1), 1000);
    // the accumulator plus the points taken account for every hp lost
    assert_eq!(s.get_acc(1) + DAMAGE_PER_POINT * s.get_value(1), 10000);
    // other teams are untouched
    assert_eq!(s.get_value(2), 0);
}

#[test]
fn bloodtithe_stops_at_the_cap() {
    let mut s = BloodtitheState::new();
    s.set_max(1, 2);
    assert_eq!(s.on_hp_lost(1, 1, 12000), Some(2));
    assert_eq!(s.get_value(1), 2);
    // the hp beyond the cap stays in the accumulator
    assert_eq!(s.get_acc(1), 6000);
    assert_eq!(s.on_hp_lost(1, 1, 3000), None);
    assert_eq!(s.get_acc(1), 9000);
}

#[test]
fn bloodtithe_negative_loss_gains_nothing() {
    let mut s = BloodtitheState::new();
    assert_eq!(s.on_hp_lost(1, 1, -5000), None);
    assert_eq!(s.get_acc(1), -5000);
    assert_eq!(s.get_value(1), 0);
}

#[test]
fn bloodtithe_recalc_max_caps_value() {
    let mut s = BloodtitheState::new();
    s.set_value(1, 20);
    assert_eq!(s.get_value(1), 20);
    s.recalc_max(1, 2);
    assert_eq!(s.get_max(1), 56);
    s.set_value(1, 70);
    assert_eq!(s.get_value(1), 56);
    s.recalc_max(1, 0);
    assert_eq!(s.get_max(1), 24);
    assert_eq!(s.get_value(1), 24);
}

#[test]
fn bloodtithe_initial_gain_is_capped() {
    let mut s = BloodtitheState::new();
    s.add_initial_gain(1, 10);
    assert_eq!(s.get_value(1), 10);
    s.add_initial_gain(1, 30);
    assert_eq!(s.get_value(1), 24);
}

#[test]
fn bloodtithe_moxie_thresholds_pay_once() {
    let mut s = BloodtitheState::new();
    s.set_value(1, 11);
    assert_eq!(s.consume_moxie_thresholds(1, 4), 2);
    assert_eq!(s.consume_moxie_thresholds(1, 4), 0);
    s.set_value(1, 13);
    assert_eq!(s.consume_moxie_thresholds(1, 4), 1);
    assert_eq!(s.consume_moxie_thresholds(1, 4), 0);
    // a negative threshold divides toward zero like Rust's `/`
    let mut t = BloodtitheState::new();
    t.set_value(1, 7);
    assert_eq!(t.consume_moxie_thresholds(1, -2), 0);
}

#[test]
fn bloodtithe_clear_and_reset() {
    let mut s = BloodtitheState::new();
    s.set_max(1, 40);
    s.on_hp_lost(1, 1, 4000);
    s.reset_temporary_state();
    assert_eq!(s.get_acc(1), 0);
    assert_eq!(s.get_value(1), 1);
    s.clear();
    assert_eq!(s.get_value(1), 0);
    assert_eq!(s.get_max(1), BASE_MAX);
    set_gain(&mut s, 4);
    s.initialized = true;
    assert!(s.has_bloodpool());
}
