use gameserver::buff_mgr::{self, BuffInstance, BuffMgr, StackConsumeResult};
use gameserver::buff_uid::{BuffUidCounters, attacker_buff_uid_checkpoint, defender_buff_uid_checkpoint};
use gameserver::config::{BattleConfig, BuffActRow, BuffTypeRow, SkillBuffRow};
use gameserver::fight::{AttrInfo, BuffInfo, Fight, FightEntityInfo, FightTeamInfo};
use gameserver::manager::Manager;

fn buff_row(id: i32, type_id: i32, during: i32, count: i32, features: &str) -> SkillBuffRow {
    SkillBuffRow { id, type_id, during_time: during, effect_count: count, features: features.as_bytes().to_vec() }
}

fn cfg() -> BattleConfig {
    BattleConfig {
        skill_buff: vec![
            // plain refreshable buff, timed
            buff_row(100, 10, 2, 1, "1#5"),
            // stacked drop-damage buff
            buff_row(200, 20, 0, 3, "7#206#100"),
            // stacked, not drop damage
            buff_row(300, 20, 0, 1, "7#205#100"),
            // permanent buff
            buff_row(400, 40, 0, 0, ""),
        ],
        skill_bufftype: vec![
            BuffTypeRow { id: 10, include_types: b"3#1".to_vec() },
            BuffTypeRow { id: 20, include_types: b" 12 #4".to_vec() },
            BuffTypeRow { id: 40, include_types: b"1".to_vec() },
        ],
        buff_act: vec![BuffActRow { id: 7, act_type: "Attr".to_string() }],
        monster_skill_template: vec![],
        injury_bank: vec![],
        magic_circle: vec![],
        skill_effect: vec![],
        cloth_level: vec![],
        episode: vec![],
        battle: vec![],
    }
}

#[test]
fn buff_build_reads_the_table() {
    let mut uids = BuffUidCounters::new();
    let b = BuffInstance::build(100, 9, &cfg(), &mut uids);
    assert_eq!(b.uid, 2);
    assert_eq!(b.type_id, 10);
    assert_eq!(b.duration, 2);
    assert_eq!(b.stacks, 1);
    assert_eq!(b.layer, 0);
    let unknown = BuffInstance::build(999, 9, &cfg(), &mut uids);
    assert_eq!(unknown.uid, 4);
    assert_eq!(unknown.type_id, 0);
    assert_eq!(buff_mgr::buff_row_values(&cfg(), 200), (20, 0, 3));
}

#[test]
fn buff_add_refreshes_plain_buffs() {
    let c = cfg();
    let mut uids = BuffUidCounters::new();
    let mut mgr = BuffMgr::new();
    assert!(mgr.is_empty());
    mgr.add(1, 100, 9, 0, 0, &c, &mut uids);
    mgr.set_instance_duration(1, 2, 0);
    mgr.add(1, 100, 9, 5, 2, &c, &mut uids);
    let bs = mgr.get(1);
    assert_eq!(bs.len(), 1);
    // the refreshed instance keeps its uid, takes the longer duration
    assert_eq!(bs[0].uid, 2);
    assert_eq!(bs[0].duration, 2);
    assert_eq!(bs[0].stacks, 5);
    assert_eq!(bs[0].layer, 2);
    assert!(mgr.has(1, 100));
    assert!(!mgr.has(1, 200));
    assert!(mgr.has_type(1, 10));
    assert!(!mgr.is_empty());
}

#[test]
fn buff_add_stacks_stacked_types() {
    let c = cfg();
    let mut uids = BuffUidCounters::new();
    let mut mgr = BuffMgr::new();
    mgr.add(1, 200, 9, 0, 0, &c, &mut uids);
    mgr.add(1, 200, 9, 2, 0, &c, &mut uids);
    let bs = mgr.get(1);
    assert_eq!(bs.len(), 2);
    assert_eq!(bs[0].stacks, 3);
    assert_eq!(bs[1].stacks, 2);
    assert_eq!(mgr.count_buff_ids(1, &[200]), 5);
    assert_eq!(mgr.count_type(1, 20), 5);
    assert_eq!(mgr.count_buff_ids(1, &[100]), 0);
    // a zero count counts as one
    mgr.add(1, 400, 9, 0, 0, &c, &mut uids);
    assert_eq!(mgr.count_type(1, 40), 1);
}

#[test]
fn buff_add_with_uid_updates_by_uid() {
    let c = cfg();
    let mut mgr = BuffMgr::new();
    mgr.add_with_uid(-1, 100, 5, 0, 0, 77, &c);
    mgr.add_with_uid(-1, 400, 6, 3, 1, 77, &c);
    let bs = mgr.get(-1);
    assert_eq!(bs.len(), 1);
    assert_eq!(bs[0].buff_id, 400);
    assert_eq!(bs[0].type_id, 40);
    assert_eq!(bs[0].from_uid, 6);
    assert_eq!(bs[0].duration, 2);
    assert_eq!(bs[0].stacks, 3);
    // a refreshed plain buff takes the new uid
    mgr.add_with_uid(-1, 400, 6, 0, 0, 80, &c);
    assert_eq!(mgr.get(-1).len(), 1);
    assert_eq!(mgr.get(-1)[0].uid, 80);
}

#[test]
fn buff_instance_setters_report_misses() {
    let c = cfg();
    let mut mgr = BuffMgr::new();
    mgr.add_with_uid(1, 100, 5, 0, 0, 11, &c);
    assert!(mgr.set_instance_duration(1, 11, -4));
    assert_eq!(mgr.get(1)[0].duration, 0);
    assert!(mgr.set_instance_layer(1, 11, 3));
    assert_eq!(mgr.get(1)[0].layer, 3);
    assert!(mgr.set_instance_act_common_params(1, 11, b"770#5#9".to_vec()));
    assert_eq!(mgr.get(1)[0].act_common_params, b"770#5#9".to_vec());
    assert!(!mgr.set_instance_layer(1, 12, 3));
    assert!(!mgr.set_instance_duration(2, 11, 3));
    assert_eq!(mgr.find_instance_by_type_id(1, 10).unwrap().uid, 11);
    assert!(mgr.find_instance_by_type_id(1, 20).is_none());
}

#[test]
fn buff_clear_and_remove_record_deleted_ids() {
    let c = cfg();
    let mut mgr = BuffMgr::new();
    mgr.add_with_uid(1, 100, 5, 0, 0, 11, &c);
    mgr.add_with_uid(1, 200, 5, 0, 0, 12, &c);
    mgr.remove_by_uid(1, 12);
    assert_eq!(mgr.get(1).len(), 1);
    assert_eq!(mgr.step_deleted_buff_ids(), &[200, 20]);
    mgr.clear(1);
    assert!(mgr.get(1).is_empty());
    assert_eq!(mgr.step_deleted_buff_ids(), &[200, 20, 100, 10]);
    mgr.clear_step_deleted_buff_ids();
    assert!(mgr.step_deleted_buff_ids().is_empty());
    // removing from a target without buffs changes nothing
    mgr.remove_by_uid(5, 1);
    assert!(mgr.step_deleted_buff_ids().is_empty());
}

#[test]
fn buff_consume_stacked_drop_damage_oldest_first() {
    let c = cfg();
    let mut mgr = BuffMgr::new();
    mgr.add_with_uid(1, 300, 5, 1, 0, 5, &c);
    mgr.add_with_uid(1, 200, 5, 2, 0, 20, &c);
    mgr.add_with_uid(1, 200, 5, 1, 2, 10, &c);
    // uid 10 is the oldest drop-damage instance; it has layers
    match mgr.consume_one_stacked_drop_dmg(1, &c) {
        Some(StackConsumeResult::Updated(b)) => {
            assert_eq!(b.uid, 10);
            assert_eq!(b.layer, 1);
        },
        _ => panic!("expected an update"),
    }
    match mgr.consume_one_stacked_drop_dmg(1, &c) {
        Some(StackConsumeResult::Removed(b)) => assert_eq!(b.uid, 10),
        _ => panic!("expected a removal"),
    }
    match mgr.consume_one_stacked_drop_dmg(1, &c) {
        Some(StackConsumeResult::Updated(b)) => {
            assert_eq!(b.uid, 20);
            assert_eq!(b.stacks, 1);
        },
        _ => panic!("expected an update"),
    }
    match mgr.consume_one_stacked_drop_dmg(1, &c) {
        Some(StackConsumeResult::Removed(b)) => assert_eq!(b.uid, 20),
        _ => panic!("expected a removal"),
    }
    assert!(mgr.consume_one_stacked_drop_dmg(1, &c).is_none());
    assert_eq!(mgr.get(1).len(), 1);
    assert_eq!(mgr.step_deleted_buff_ids(), &[200, 20, 200, 20]);
}

#[test]
fn buff_consume_drops_emptied_bucket() {
    let c = cfg();
    let mut mgr = BuffMgr::new();
    mgr.add_with_uid(2, 200, 5, 1, 0, 30, &c);
    assert!(matches!(mgr.consume_one_stacked_drop_dmg(2, &c), Some(StackConsumeResult::Removed(_))));
    assert!(mgr.is_empty());
}

#[test]
fn buff_round_end_ticks_and_expires() {
    let c = cfg();
    let mut mgr = BuffMgr::new();
    mgr.add_with_uid(1, 100, 5, 0, 0, 11, &c);
    mgr.add_with_uid(1, 400, 5, 0, 0, 12, &c);
    mgr.on_round_end(&c);
    assert_eq!(mgr.get(1).len(), 2);
    assert_eq!(mgr.get(1)[0].duration, 1);
    mgr.on_round_end(&c);
    // the timed buff ran out with stacks left; the permanent one stays
    assert_eq!(mgr.get(1).len(), 1);
    assert_eq!(mgr.get(1)[0].buff_id, 400);
    Manager::on_battle_end(&mut mgr);
    assert!(mgr.is_empty());
}

#[test]
fn buff_teammate_injury_and_slot_usage() {
    let mut mgr = BuffMgr::new();
    mgr.add_teammate_injury_not_reset(3, 40);
    mgr.add_teammate_injury_not_reset(3, -5);
    mgr.add_teammate_injury_not_reset(0, 9);
    mgr.add_teammate_injury_not_reset(3, i32::MAX);
    assert_eq!(mgr.teammate_injury_not_reset(3), i32::MAX);
    assert_eq!(mgr.teammate_injury_not_reset(0), 0);
    assert_eq!(mgr.increment_skill_slot_round_usage(3, 70, 1), 1);
    assert_eq!(mgr.increment_skill_slot_round_usage(3, 70, 1), 2);
    assert_eq!(mgr.increment_skill_slot_round_usage(3, 70, 2), 1);
    assert_eq!(mgr.skill_slot_round_usage(3, 70, 1), 2);
    mgr.reset_skill_slot_round_usage();
    assert_eq!(mgr.skill_slot_round_usage(3, 70, 1), 0);
}

#[test]
fn buff_all_instances_lists_every_pair() {
    let c = cfg();
    let mut mgr = BuffMgr::new();
    mgr.add_with_uid(1, 100, 5, 0, 0, 11, &c);
    mgr.add_with_uid(-1, 400, 5, 0, 0, 100012, &c);
    let mut all: Vec<(i64, i64)> = mgr.all_instances().iter().map(|(t, b)| (*t, b.uid)).collect();
    all.sort();
    assert_eq!(all, vec![(-1, 100012), (1, 11)]);
}

#[test]
fn buff_uid_counters_follow_the_manager() {
    let c = cfg();
    let mut mgr = BuffMgr::new();
    mgr.add_with_uid(1, 100, 5, 0, 0, 11, &c);
    mgr.add_with_uid(-1, 400, 5, 0, 0, 100012, &c);
    let mut uids = BuffUidCounters::new();
    uids.attacker = 500;
    buff_mgr::sync_buff_uid_counters_from_mgr(&mut uids, &mgr);
    assert_eq!(attacker_buff_uid_checkpoint(&uids), 11);
    assert_eq!(defender_buff_uid_checkpoint(&uids), 100012);
}

fn snapshot_buff(uid: i64, buff_id: i32) -> BuffInfo {
    BuffInfo { uid: Some(uid), buff_id: Some(buff_id), from_uid: Some(4), count: Some(2), layer: Some(0), act_common_params: None }
}

fn snapshot() -> Fight {
    let e = FightEntityInfo {
        uid: Some(1),
        model_id: Some(3080),
        position: Some(1),
        team_type: Some(1),
        current_hp: Some(10),
        ex_point: Some(0),
        ex_point_type: Some(0),
        attr: Some(AttrInfo { hp: Some(10) }),
        base_attr: None,
        buffs: vec![snapshot_buff(21, 100), snapshot_buff(0, 200)],
        no_effect_buffs: vec![snapshot_buff(23, 400)],
        passive_skill: vec![],
    };
    Fight {
        battle_id: Some(1),
        episode_id: None,
        cur_wave: Some(1),
        attacker: Some(FightTeamInfo { entitys: vec![e], sub_entitys: vec![], cloth_id: None, power: None }),
        defender: None,
    }
}

#[test]
fn buff_sync_from_fight_imports_snapshot() {
    let c = cfg();
    let mut mgr = BuffMgr::new();
    let mut uids = BuffUidCounters::new();
    mgr.add_with_uid(9, 100, 5, 0, 0, 99, &c);
    buff_mgr::sync_from_fight(&snapshot(), &mut mgr, &c, &mut uids);
    assert!(mgr.get(9).is_empty());
    let bs = mgr.get(1);
    // the buff without a uid is skipped
    assert_eq!(bs.len(), 2);
    assert_eq!(bs[0].uid, 21);
    assert_eq!(bs[0].stacks, 2);
    assert_eq!(bs[1].uid, 23);
    assert_eq!(attacker_buff_uid_checkpoint(&uids), 23);
}

#[test]
fn buff_sync_preserving_runtime_keeps_runtime_entries() {
    let c = cfg();
    let mut mgr = BuffMgr::new();
    let mut uids = BuffUidCounters::new();
    mgr.add_with_uid(1, 100, 5, 7, 0, 21, &c);
    mgr.add_with_uid(2, 400, 5, 0, 0, 50, &c);
    buff_mgr::sync_from_fight_preserve_runtime(&snapshot(), &mut mgr, &c, &mut uids);
    let bs = mgr.get(1);
    assert_eq!(bs.len(), 2);
    // the runtime copy of uid 21 wins
    assert_eq!(bs[0].stacks, 7);
    assert_eq!(mgr.get(2).len(), 1);
}

#[test]
fn buff_teammate_injury_survives_round_ends() {
    let c = cfg();
    let mut mgr = BuffMgr::new();
    mgr.add_teammate_injury_not_reset(3, 40);
    mgr.add_with_uid(3, 100, 5, 0, 0, 11, &c);
    for _ in 0..5 {
        mgr.on_round_end(&c);
    }
    assert_eq!(mgr.teammate_injury_not_reset(3), 40);
    Manager::on_battle_end(&mut mgr);
    assert_eq!(mgr.teammate_injury_not_reset(3), 0);
}

#[test]
fn buff_deleted_ids_follow_removal_order() {
    let c = cfg();
    let mut mgr = BuffMgr::new();
    mgr.add_with_uid(1, 100, 5, 0, 0, 11, &c);
    mgr.add_with_uid(2, 400, 5, 0, 0, 12, &c);
    mgr.add_with_uid(2, 200, 5, 0, 0, 13, &c);
    mgr.clear_step_deleted_buff_ids();
    mgr.remove_by_uid(2, 13);
    mgr.clear(1);
    mgr.clear(2);
    assert_eq!(mgr.step_deleted_buff_ids(), &[200, 20, 100, 10, 400, 40]);
}

#[test]
fn buff_all_instances_keeps_each_target_in_order() {
    let c = cfg();
    let mut mgr = BuffMgr::new();
    mgr.add_with_uid(1, 200, 5, 0, 0, 21, &c);
    mgr.add_with_uid(-1, 400, 5, 0, 0, 100012, &c);
    mgr.add_with_uid(1, 100, 5, 0, 0, 11, &c);
    mgr.add_with_uid(1, 200, 5, 0, 0, 22, &c);
    let all = mgr.all_instances();
    assert_eq!(all.len(), 4);
    let on_one: Vec<i64> = all.iter().filter(|(t, _)| *t == 1).map(|(_, b)| b.uid).collect();
    assert_eq!(on_one, vec![21, 11, 22]);
    let on_minus_one: Vec<i64> = all.iter().filter(|(t, _)| *t == -1).map(|(_, b)| b.uid).collect();
    assert_eq!(on_minus_one, vec![100012]);
}
