use gameserver::config::{BattleConfig, BuffActRow, SkillBuffRow};
use gameserver::fight::{AttrInfo, Fight, FightEntityInfo, FightTeamInfo};
use gameserver::round_mgr::{EntryMaxHp, lookup_entry_max_hp, seed_entry_max_hp_from_fight};
use gameserver::shadowcloak::{
    SHADOW_CLOAK_ACCUMULATOR_BUFF_ID, SHADOW_CLOAK_OVERFLOW_TRACKER_BUFF_ID, SeededRaspberryMax, ShadowCloakState,
    ShadowCloakTunings, apply_seeded_shadow_cloak_capacity, basic_self_loss_amount, buff_is_shadow_cloak_accumulator,
    entry_max_hp_from_shadow_cloak_capacity, init_shadow_cloak_state, seed_replay_raspberry_max,
    shadow_cloak_capacity, shadow_cloak_tunings, shadow_friend_hp_to_cloak_gain, uses_shadow_cloak_overflow_tracker,
};

fn cfg(features: &str) -> BattleConfig {
    BattleConfig {
        skill_buff: vec![
            SkillBuffRow {
                id: SHADOW_CLOAK_ACCUMULATOR_BUFF_ID,
                type_id: SHADOW_CLOAK_ACCUMULATOR_BUFF_ID,
                during_time: 0,
                effect_count: 0,
                features: features.as_bytes().to_vec(),
            },
            SkillBuffRow { id: 31250152, type_id: SHADOW_CLOAK_ACCUMULATOR_BUFF_ID, during_time: 0, effect_count: 0, features: vec![] },
        ],
        skill_bufftype: vec![],
        buff_act: vec![
            BuffActRow { id: 1042, act_type: "Raspberry".to_string() },
            BuffActRow { id: 7, act_type: "Attr".to_string() },
        ],
        monster_skill_template: vec![],
        injury_bank: vec![],
        magic_circle: vec![],
        skill_effect: vec![],
        cloth_level: vec![],
        episode: vec![],
        battle: vec![],
    }
}

fn tunings() -> ShadowCloakTunings {
    ShadowCloakTunings { share_rate_permille: 700, max_hp_cap_permille: 150 }
}

#[test]
fn shadow_cloak_tunings_come_from_the_raspberry_feature() {
    let t = shadow_cloak_tunings(&cfg("7#206#1|1042#0#0# 700 #150#1")).unwrap();
    assert_eq!(t.share_rate_permille, 700);
    assert_eq!(t.max_hp_cap_permille, 150);
    assert!(shadow_cloak_tunings(&cfg("7#206#1")).is_none());
    assert!(shadow_cloak_tunings(&cfg("1042#0#0#700")).is_none());
    assert!(shadow_cloak_tunings(&cfg("1042#0#0#x#150")).is_none());
}

#[test]
fn shadow_cloak_capacity_formulas() {
    let t = tunings();
    assert_eq!(shadow_cloak_capacity(10000, &t), 1500);
    assert_eq!(shadow_cloak_capacity(99, &t), 14);
    assert_eq!(entry_max_hp_from_shadow_cloak_capacity(1500, &t), 10000);
    assert_eq!(entry_max_hp_from_shadow_cloak_capacity(14, &t), 93);
    assert_eq!(shadow_friend_hp_to_cloak_gain(1000, 10000, &t), 700);
    assert_eq!(shadow_friend_hp_to_cloak_gain(5000, 10000, &t), 1500);
}

#[test]
fn shadow_cloak_accumulator_and_tracker_ids() {
    let c = cfg("");
    assert!(buff_is_shadow_cloak_accumulator(&c, 31250152));
    assert!(!buff_is_shadow_cloak_accumulator(&c, 1));
    assert!(uses_shadow_cloak_overflow_tracker(Some(3125), SHADOW_CLOAK_OVERFLOW_TRACKER_BUFF_ID));
    assert!(!uses_shadow_cloak_overflow_tracker(Some(3080), SHADOW_CLOAK_OVERFLOW_TRACKER_BUFF_ID));
    assert!(!uses_shadow_cloak_overflow_tracker(Some(3125), 1));
}

fn entity(uid: i64, model: i32, max_hp: i32) -> FightEntityInfo {
    FightEntityInfo {
        uid: Some(uid),
        model_id: Some(model),
        position: Some(1),
        team_type: Some(1),
        current_hp: Some(max_hp / 2),
        ex_point: Some(0),
        ex_point_type: Some(0),
        attr: Some(AttrInfo { hp: Some(max_hp) }),
        base_attr: None,
        buffs: vec![],
        no_effect_buffs: vec![],
        passive_skill: vec![],
    }
}

fn fight(battle_id: i32) -> Fight {
    Fight {
        battle_id: Some(battle_id),
        episode_id: None,
        cur_wave: Some(1),
        attacker: Some(FightTeamInfo { entitys: vec![entity(1, 3080, 5000), entity(2, 3125, 10000)], sub_entitys: vec![], cloth_id: None, power: None }),
        defender: None,
    }
}

#[test]
fn shadow_cloak_state_init_finds_rubuska() {
    let seeded = SeededRaspberryMax::new();
    let mut s = ShadowCloakState::new();
    assert!(!s.is_active());
    s.init(&fight(3), &seeded);
    assert!(s.is_active());
    assert_eq!(s.rubuska_uid, 2);
    assert_eq!(s.rubuska_entry_max_hp, 10000);
    assert_eq!(s.raspberry_max, 1500);
}

#[test]
fn shadow_cloak_state_init_prefers_seeded_cap() {
    let mut seeded = SeededRaspberryMax::new();
    seed_replay_raspberry_max(&fight(3), 900, &mut seeded);
    seed_replay_raspberry_max(&fight(0), 500, &mut seeded);
    seed_replay_raspberry_max(&fight(4), -1, &mut seeded);
    assert_eq!(seeded.get(3), 900);
    assert_eq!(seeded.get(0), 0);
    assert_eq!(seeded.get(4), 0);
    let mut s = ShadowCloakState::new();
    s.init(&fight(3), &seeded);
    assert_eq!(s.raspberry_max, 900);
    assert_eq!(s.rubuska_entry_max_hp, 6000);
    let mut r = ShadowCloakState::new();
    init_shadow_cloak_state(&mut r, &fight(3), &seeded, &tunings());
    assert_eq!(r.raspberry_max, 900);
    assert_eq!(r.rubuska_entry_max_hp, 6000);
    let mut q = ShadowCloakState::new();
    init_shadow_cloak_state(&mut q, &fight(5), &seeded, &tunings());
    assert_eq!(q.raspberry_max, 1500);
}

#[test]
fn shadow_cloak_add_banks_only_rubuska_loss() {
    let mut s = ShadowCloakState::new();
    s.init(&fight(3), &SeededRaspberryMax::new());
    assert_eq!(s.add(1, 1000), 0);
    assert_eq!(s.add(2, 1000), 700);
    assert_eq!(s.add(2, 100000), 1500);
    assert_eq!(s.add(2, 1), 0);
    s.reset_tick();
    let mut t = ShadowCloakState::new();
    apply_seeded_shadow_cloak_capacity(&mut t, 300, &tunings());
    assert_eq!(t.raspberry_max, 300);
    assert_eq!(t.rubuska_entry_max_hp, 2000);
}

#[test]
fn entry_max_hp_is_recorded_once_per_battle() {
    let mut tracker = EntryMaxHp::new();
    let mut f = fight(3);
    f.attacker.as_mut().unwrap().entitys[0].base_attr = Some(AttrInfo { hp: Some(4000) });
    seed_entry_max_hp_from_fight(&f, &mut tracker);
    // the base attribute wins, but never below the current hp
    assert_eq!(lookup_entry_max_hp(&f, 1, &tracker), 4000);
    assert_eq!(lookup_entry_max_hp(&f, 2, &tracker), 10000);
    f.attacker.as_mut().unwrap().entitys[1].attr = Some(AttrInfo { hp: Some(1) });
    seed_entry_max_hp_from_fight(&f, &mut tracker);
    assert_eq!(lookup_entry_max_hp(&f, 2, &tracker), 10000);
    assert_eq!(lookup_entry_max_hp(&fight(9), 2, &tracker), 0);
    assert_eq!(lookup_entry_max_hp(&f, 0, &tracker), 0);
    let unnamed = fight(0);
    seed_entry_max_hp_from_fight(&unnamed, &mut tracker);
    assert_eq!(lookup_entry_max_hp(&unnamed, 2, &tracker), 0);
    assert_eq!(basic_self_loss_amount(&f, 2, 50, &tracker), 500);
    assert_eq!(basic_self_loss_amount(&f, 7, 50, &tracker), 0);
}
