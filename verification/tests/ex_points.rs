use gameserver::config::{BattleConfig, MonsterSkillTemplateRow};
use gameserver::entity_mgr::{self, EntityLocation, EntityMgr};
use gameserver::ex_point_mgr::{self, ExPointMgr};
use gameserver::fight::{AttrInfo, Fight, FightEntityInfo, FightTeamInfo};
use gameserver::manager::Manager;

fn entity(uid: i64, model: i32, hp: i32, ex: i32) -> FightEntityInfo {
    FightEntityInfo {
        uid: Some(uid),
        model_id: Some(model),
        position: Some(1),
        team_type: Some(if uid >= 0 { 1 } else { 2 }),
        current_hp: Some(hp),
        ex_point: Some(ex),
        ex_point_type: Some(0),
        attr: Some(AttrInfo { hp: Some(hp + 100) }),
        base_attr: None,
        buffs: vec![],
        no_effect_buffs: vec![],
        passive_skill: vec![],
    }
}

fn fight(att: Vec<FightEntityInfo>, sub: Vec<FightEntityInfo>, def: Vec<FightEntityInfo>) -> Fight {
    Fight {
        battle_id: Some(7),
        episode_id: None,
        cur_wave: Some(1),
        attacker: Some(FightTeamInfo { entitys: att, sub_entitys: sub, cloth_id: None, power: None }),
        defender: Some(FightTeamInfo { entitys: def, sub_entitys: vec![], cloth_id: None, power: None }),
    }
}

fn sample() -> Fight {
    let mut belief = entity(2, 3120, 300, 4);
    belief.ex_point_type = Some(1);
    let mut no_attr = entity(-1, 900, 50, 1);
    no_attr.attr = None;
    fight(vec![entity(1, 3080, 500, 2), belief], vec![entity(3, 3062, 400, 0)], vec![no_attr])
}

#[test]
fn ex_point_mgr_init_reads_every_entity() {
    let mut mgr = ExPointMgr::new();
    mgr.init(&sample());
    assert_eq!(mgr.get_ex_point(1), 2);
    assert_eq!(mgr.get_ex_point(2), 4);
    assert_eq!(mgr.get_ex_point(3), 0);
    assert_eq!(mgr.get_ex_max(1), 5);
    assert_eq!(mgr.get_ex_max(2), 8);
    assert_eq!(mgr.get_hp(-1), 50);
    assert_eq!(mgr.get_max_hp(1), 600);
    // without an attribute block the max hp falls back to the current hp
    assert_eq!(mgr.get_max_hp(-1), 50);
    assert_eq!(mgr.get_ex_point(99), 0);
}

#[test]
fn ex_point_mgr_add_floors_at_zero() {
    let mut mgr = ExPointMgr::new();
    mgr.add_ex_point(1, 3);
    assert_eq!(mgr.get_ex_point(1), 3);
    mgr.add_ex_point(1, -5);
    assert_eq!(mgr.get_ex_point(1), 0);
}

#[test]
fn ex_point_mgr_consume_only_when_enough() {
    let mut mgr = ExPointMgr::new();
    mgr.set_ex_point(1, 3);
    assert!(!mgr.consume_ex_point(1, 4));
    assert_eq!(mgr.get_ex_point(1), 3);
    assert!(mgr.consume_ex_point(1, 3));
    assert_eq!(mgr.get_ex_point(1), 0);
    assert!(mgr.consume_ex_point(5, 0));
}

#[test]
fn ex_point_mgr_set_then_get() {
    let mut mgr = ExPointMgr::new();
    mgr.set_ex_point(4, 6);
    assert_eq!(mgr.get_ex_point(4), 6);
    mgr.set_ex_point(4, -2);
    assert_eq!(mgr.get_ex_point(4), 0);
    mgr.set_hp(4, -10);
    assert_eq!(mgr.get_hp(4), 0);
    mgr.set_max_hp(4, 900);
    assert_eq!(mgr.get_max_hp(4), 900);
    mgr.add_ex_max(4, 3);
    assert_eq!(mgr.get_ex_max(4), 3);
}

#[test]
fn ex_point_mgr_damage_and_heal_bounds() {
    let mut mgr = ExPointMgr::new();
    mgr.set_hp(1, 100);
    mgr.apply_damage(1, 30);
    assert_eq!(mgr.get_hp(1), 70);
    mgr.apply_damage(1, 500);
    assert_eq!(mgr.get_hp(1), 0);
    mgr.apply_heal(1, 80, 60);
    assert_eq!(mgr.get_hp(1), 60);
    mgr.apply_heal(1, 10, 200);
    assert_eq!(mgr.get_hp(1), 70);
}

#[test]
fn ex_point_mgr_round_and_battle_end() {
    let mut mgr = ExPointMgr::new();
    mgr.set_ex_point(1, 3);
    mgr.set_hp(1, 40);
    mgr.set_max_hp(1, 90);
    mgr.set_recent_decr_ex_point(1, 2);
    assert_eq!(mgr.get_recent_decr_ex_point(1), 2);
    mgr.on_round_end(&empty_tables());
    assert_eq!(mgr.get_recent_decr_ex_point(1), 0);
    assert_eq!(mgr.get_ex_point(1), 3);
    mgr.on_battle_end();
    assert_eq!(mgr.get_ex_point(1), 0);
    assert_eq!(mgr.get_hp(1), 0);
    assert_eq!(mgr.get_max_hp(1), 90);
}

#[test]
fn ex_point_mgr_recent_decrease_floors_and_clears() {
    let mut mgr = ExPointMgr::new();
    mgr.set_recent_decr_ex_point(2, -4);
    assert_eq!(mgr.get_recent_decr_ex_point(2), 0);
    mgr.set_recent_decr_ex_point(2, 4);
    mgr.clear_recent_decr_ex_point(2);
    assert_eq!(mgr.get_recent_decr_ex_point(2), 0);
}

#[test]
fn ex_point_mgr_sync_round_trip() {
    let mut f = sample();
    let mut mgr = ExPointMgr::new();
    mgr.init(&f);
    mgr.set_ex_point(1, 5);
    mgr.set_hp(1, 123);
    mgr.set_max_hp(1, 777);
    ex_point_mgr::sync_to_fight(&mut f, &mgr);
    let e = &f.attacker.as_ref().unwrap().entitys[0];
    assert_eq!(e.ex_point, Some(5));
    assert_eq!(e.current_hp, Some(123));
    assert_eq!(e.attr, Some(AttrInfo { hp: Some(777) }));
    assert_eq!(e.base_attr, None);

    let mut other = ExPointMgr::new();
    ex_point_mgr::sync_from_fight(&f, &mut other);
    assert_eq!(other.get_ex_point(1), 5);
    assert_eq!(other.get_hp(1), 123);
    assert_eq!(other.get_max_hp(1), 777);
    // no attribute block: the max hp is not copied
    assert_eq!(other.get_max_hp(-1), 0);
}

fn templates() -> Vec<MonsterSkillTemplateRow> {
    vec![
        MonsterSkillTemplateRow { id: 900, unique_skill_point: 4 },
        MonsterSkillTemplateRow { id: 900, unique_skill_point: 9 },
    ]
}

#[test]
fn entity_mgr_new_caches_fielded_locations() {
    let mgr = EntityMgr::new(&sample(), &templates());
    assert_eq!(mgr.get_location(1), Some(EntityLocation { is_attacker: true, index: 0 }));
    assert_eq!(mgr.get_location(2), Some(EntityLocation { is_attacker: true, index: 1 }));
    assert_eq!(mgr.get_location(-1), Some(EntityLocation { is_attacker: false, index: 0 }));
    // substitutes are not cached
    assert_eq!(mgr.get_location(3), None);
    // the first template with the model's id gives the required points
    assert_eq!(mgr.get_ex_point_required(-1), 4);
    assert_eq!(mgr.get_ex_point_required(1), 0);
    assert_eq!(mgr.get_ex_max(2), 8);
    assert_eq!(mgr.get_hp(3), 400);
}

#[test]
fn entity_mgr_alive_uids_by_side() {
    let mut f = sample();
    f.attacker.as_mut().unwrap().entitys[1].current_hp = Some(0);
    let mgr = EntityMgr::new(&f, &templates());
    let heroes = mgr.alive_hero_uids();
    assert!(heroes.contains(&1));
    assert!(!heroes.contains(&2));
    assert!(!heroes.contains(&-1));
    assert_eq!(heroes.len(), 1);
    let enemies = mgr.alive_enemy_uids();
    assert!(enemies.contains(&-1));
    assert_eq!(enemies.len(), 1);
}

#[test]
fn entity_mgr_ex_points_and_hp() {
    let mut mgr = EntityMgr::new(&sample(), &templates());
    mgr.add_ex_point(1, 2);
    assert_eq!(mgr.get_ex_point(1), 4);
    assert!(mgr.consume_ex_point(1, 4));
    assert!(!mgr.consume_ex_point(1, 1));
    mgr.apply_damage(1, 1000);
    assert_eq!(mgr.get_hp(1), 0);
    mgr.apply_heal(1, 50, 30);
    assert_eq!(mgr.get_hp(1), 30);
    mgr.set_recent_decr_ex_point(1, 3);
    mgr.on_round_end(&empty_tables());
    assert_eq!(mgr.get_recent_decr_ex_point(1), 0);
    mgr.on_battle_end();
    assert_eq!(mgr.get_ex_point(1), 0);
    assert_eq!(mgr.get_hp(1), 0);
}

#[test]
fn entity_mgr_sub_hero_fills_first_dead_slot() {
    let mut f = sample();
    f.attacker.as_mut().unwrap().entitys[1].current_hp = Some(0);
    f.attacker.as_mut().unwrap().entitys[1].position = Some(2);
    let mut mgr = EntityMgr::new(&f, &templates());
    let (dead, sub, pos) = mgr.sub_hero(&mut f).unwrap();
    assert_eq!(dead, 2);
    assert_eq!(sub.uid, Some(3));
    assert_eq!(pos, 2);
    let att = f.attacker.as_ref().unwrap();
    assert_eq!(att.entitys[1].uid, Some(3));
    assert_eq!(att.entitys[1].position, Some(2));
    assert!(att.sub_entitys.is_empty());
    assert_eq!(mgr.get_location(3), Some(EntityLocation { is_attacker: true, index: 1 }));
    assert_eq!(mgr.get_location(2), None);
    // no substitutes left
    assert!(mgr.sub_hero(&mut f).is_none());
}

#[test]
fn entity_mgr_sub_hero_needs_a_dead_hero() {
    let mut f = sample();
    let mut mgr = EntityMgr::new(&f, &templates());
    assert!(mgr.sub_hero(&mut f).is_none());
    assert_eq!(f.attacker.as_ref().unwrap().sub_entitys.len(), 1);
}

#[test]
fn entity_mgr_team_entities_filter_fielded() {
    let f = sample();
    let mgr = EntityMgr::new(&f, &templates());
    let team1 = mgr.get_team_entities(&f, 1);
    assert_eq!(team1.len(), 2);
    assert_eq!(team1[0].uid, Some(1));
    let team2 = mgr.get_team_entities(&f, 2);
    assert_eq!(team2.len(), 1);
    assert_eq!(team2[0].uid, Some(-1));
}

#[test]
fn entity_mgr_location_lookup_and_sync() {
    let mut f = sample();
    let mut mgr = EntityMgr::new(&f, &templates());
    mgr.set_ex_point(-1, 7);
    entity_mgr::sync_to_fight(&mut f, &mgr);
    let loc = mgr.get_location(-1).unwrap();
    let e = entity_mgr::get_entity_mut_by_location(&mut f, loc).unwrap();
    assert_eq!(e.ex_point, Some(7));
    e.current_hp = Some(5);
    entity_mgr::sync_from_fight(&f, &mut mgr);
    assert_eq!(mgr.get_hp(-1), 5);
    assert!(entity_mgr::get_entity_mut_by_location(&mut f, EntityLocation { is_attacker: false, index: 4 }).is_none());
}

#[test]
fn entity_mgr_required_points_reseeded() {
    let f = sample();
    let mut mgr = EntityMgr::new(&f, &vec![]);
    assert_eq!(mgr.get_ex_point_required(-1), 0);
    entity_mgr::seed_ex_point_required_from_fight(&f, &templates(), &mut mgr);
    assert_eq!(mgr.get_ex_point_required(-1), 4);
}

fn empty_tables() -> BattleConfig {
    BattleConfig {
        skill_buff: Vec::new(),
        skill_bufftype: Vec::new(),
        buff_act: Vec::new(),
        monster_skill_template: Vec::new(),
        injury_bank: Vec::new(),
        magic_circle: Vec::new(),
        skill_effect: Vec::new(),
        cloth_level: Vec::new(),
        episode: Vec::new(),
        battle: Vec::new(),
    }
}
