use gameserver::buff_uid::{
    BuffUidCounters, DEFENDER_BUFF_UID_START, attacker_buff_uid_checkpoint, current_buff_uid,
    defender_buff_uid_checkpoint, next_buff_uid, next_buff_uid_for_target, next_slave_buff_uid_for_target,
    observe_explicit_buff_uid_for_target, reset_buff_uid, reset_buff_uid_to,
};

#[test]
fn buff_uid_policy_normal_adds_increment_by_two() {
    let mut uids = BuffUidCounters::new();
    reset_buff_uid(&mut uids);
    let a = next_buff_uid(&mut uids);
    let b = next_buff_uid(&mut uids);
    let c = next_buff_uid(&mut uids);
    assert_eq!(a, 2);
    assert_eq!(b, 4);
    assert_eq!(c, 6);
}

#[test]
fn buff_uid_policy_slave_adds_increment_by_one() {
    let mut uids = BuffUidCounters::new();
    reset_buff_uid(&mut uids);
    let a = next_slave_buff_uid_for_target(&mut uids, 1);
    let b = next_slave_buff_uid_for_target(&mut uids, 1);
    let c = next_slave_buff_uid_for_target(&mut uids, 1);
    assert_eq!(a, 1);
    assert_eq!(b, 2);
    assert_eq!(c, 3);
}

#[test]
fn buff_uid_policy_mixed_sequence_matches_live_style_counter() {
    let mut uids = BuffUidCounters::new();
    reset_buff_uid(&mut uids);
    let normal_1 = next_buff_uid(&mut uids); // 2
    let normal_2 = next_buff_uid(&mut uids); // 4
    let slave_1 = next_slave_buff_uid_for_target(&mut uids, 1); // 5
    let normal_3 = next_buff_uid(&mut uids); // 7

    assert_eq!(normal_1, 2);
    assert_eq!(normal_2, 4);
    assert_eq!(slave_1, 5);
    assert_eq!(normal_3, 7);
}

#[test]
fn buff_uid_policy_defender_range_switch_and_restore() {
    let mut uids = BuffUidCounters::new();
    reset_buff_uid(&mut uids);
    assert_eq!(next_buff_uid(&mut uids), 2);

    let checkpoint = current_buff_uid(&uids);
    reset_buff_uid_to(&mut uids, DEFENDER_BUFF_UID_START);
    assert_eq!(next_buff_uid(&mut uids), DEFENDER_BUFF_UID_START + 2);

    reset_buff_uid_to(&mut uids, checkpoint);
    assert_eq!(next_buff_uid(&mut uids), checkpoint + 2);
}

#[test]
fn targeted_allocation_uses_the_target_side() {
    let mut uids = BuffUidCounters::new();
    assert_eq!(next_buff_uid_for_target(&mut uids, -3), DEFENDER_BUFF_UID_START + 2);
    assert_eq!(next_buff_uid_for_target(&mut uids, 4), 2);
    assert_eq!(next_slave_buff_uid_for_target(&mut uids, -1), DEFENDER_BUFF_UID_START + 3);
    assert_eq!(attacker_buff_uid_checkpoint(&uids), 2);
    assert_eq!(defender_buff_uid_checkpoint(&uids), DEFENDER_BUFF_UID_START + 3);
    // The active lane is still the attacker lane.
    assert_eq!(current_buff_uid(&uids), 2);
}

#[test]
fn observed_uid_keeps_counter_ahead() {
    let mut uids = BuffUidCounters::new();
    observe_explicit_buff_uid_for_target(&mut uids, 7, 41);
    assert_eq!(next_buff_uid_for_target(&mut uids, 7), 43);
    // A smaller observed uid does not move the counter back.
    observe_explicit_buff_uid_for_target(&mut uids, 7, 10);
    assert_eq!(attacker_buff_uid_checkpoint(&uids), 43);
    // Non-positive uids are ignored.
    observe_explicit_buff_uid_for_target(&mut uids, -2, 0);
    assert_eq!(defender_buff_uid_checkpoint(&uids), DEFENDER_BUFF_UID_START);
    observe_explicit_buff_uid_for_target(&mut uids, -2, DEFENDER_BUFF_UID_START + 50);
    assert_eq!(next_slave_buff_uid_for_target(&mut uids, -2), DEFENDER_BUFF_UID_START + 51);
}

#[test]
fn reset_restores_initial_counters() {
    let mut uids = BuffUidCounters::new();
    reset_buff_uid_to(&mut uids, DEFENDER_BUFF_UID_START + 10);
    next_buff_uid(&mut uids);
    next_buff_uid_for_target(&mut uids, 1);
    reset_buff_uid(&mut uids);
    assert_eq!(attacker_buff_uid_checkpoint(&uids), 0);
    assert_eq!(defender_buff_uid_checkpoint(&uids), DEFENDER_BUFF_UID_START);
    assert_eq!(current_buff_uid(&uids), 0);
}
