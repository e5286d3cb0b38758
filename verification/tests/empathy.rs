use gameserver::buff_mgr::BuffMgr;
use gameserver::buff_uid::BuffUidCounters;
use gameserver::config::{BattleConfig, BuffActRow, InjuryBankParams, InjuryBankRow, SkillBuffRow};
use gameserver::empathy::{EmpathyState, buff_get_injury_bank_params, empathy_default_buff_id, empathy_type_id, has_empathy_buff};
use gameserver::fight::{AttrInfo, BuffInfo, Fight, FightEntityInfo, FightTeamInfo};

fn params(cap: i32, threshold: i32, heal: i32) -> InjuryBankParams {
    InjuryBankParams {
        storage_cap_permille: cap,
        storage_threshold_permille: threshold,
        heal_permille: heal,
        insight_iii_bounce_skill_id: 0,
    }
}

fn row(id: i32, type_id: i32) -> SkillBuffRow {
    SkillBuffRow { id, type_id, during_time: 0, effect_count: 0, features: b"770#0#200".to_vec() }
}

fn cfg() -> BattleConfig {
    BattleConfig {
        skill_buff: vec![row(30800143, 3080014), row(30800141, 3080014), row(30800142, 3080014), row(500, 5)],
        skill_bufftype: vec![],
        buff_act: vec![BuffActRow { id: 770, act_type: "InjuryBank".to_string() }],
        monster_skill_template: vec![],
        injury_bank: vec![
            InjuryBankRow { buff_id: 30800141, params: params(200, 100, 50) },
            InjuryBankRow { buff_id: 30800142, params: params(200, 100, 50) },
            InjuryBankRow { buff_id: 30800143, params: params(300, 0, 80) },
        ],
        magic_circle: vec![],
        skill_effect: vec![],
        cloth_level: vec![],
        episode: vec![],
        battle: vec![],
    }
}

#[test]
fn empathy_canonical_buff_is_lowest_id() {
    let c = cfg();
    assert_eq!(empathy_default_buff_id(&c), 30800141);
    assert_eq!(empathy_type_id(&c), 3080014);
    assert_eq!(buff_get_injury_bank_params(&c, 30800143).unwrap().storage_cap_permille, 300);
    assert!(buff_get_injury_bank_params(&c, 500).is_none());
    let mut none = cfg();
    none.injury_bank.clear();
    assert_eq!(empathy_default_buff_id(&none), 0);
    assert_eq!(empathy_type_id(&none), 0);
}

#[test]
fn empathy_storage_amount_is_a_tenth() {
    assert_eq!(EmpathyState::compute_storage_amount(1234), 123);
    assert_eq!(EmpathyState::compute_storage_amount(9), 0);
    assert_eq!(EmpathyState::compute_storage_amount(-50), 0);
}

#[test]
fn empathy_cap_threshold_and_heal_follow_active_variant() {
    let c = cfg();
    let mut mgr = BuffMgr::new();
    // no instance yet: the canonical variant's parameters
    assert_eq!(EmpathyState::storage_cap(&mgr, &c, 1, 1000), 200);
    assert_eq!(EmpathyState::storage_threshold(&mgr, &c, 1, 1000), Some(100));
    assert_eq!(EmpathyState::insight_iii_heal_amount(&mgr, &c, 1, 1000), 50);
    assert_eq!(EmpathyState::storage_cap(&mgr, &c, 1, -5), 0);
    mgr.add_with_uid(1, 30800143, 1, 0, 0, 40, &c);
    assert_eq!(EmpathyState::storage_cap(&mgr, &c, 1, 1000), 300);
    assert_eq!(EmpathyState::storage_threshold(&mgr, &c, 1, 1000), None);
    assert_eq!(EmpathyState::insight_iii_heal_amount(&mgr, &c, 1, 1000), 80);
    // the product saturates before dividing
    assert_eq!(EmpathyState::storage_cap(&mgr, &c, 1, i32::MAX), i32::MAX / 1000);
}

#[test]
fn empathy_apply_storage_adds_buff_and_counts_thresholds() {
    let c = cfg();
    let mut mgr = BuffMgr::new();
    let mut uids = BuffUidCounters::new();
    let mut s = EmpathyState::new();
    assert!(!has_empathy_buff(&mgr, &c, 1));
    let (total, crossed) = s.apply_storage_with_threshold(&mut mgr, &c, &mut uids, 1, 150, 1000);
    assert_eq!(total, 150);
    assert_eq!(crossed, 1);
    assert!(has_empathy_buff(&mgr, &c, 1));
    let b = &mgr.get(1)[0];
    assert_eq!(b.buff_id, 30800141);
    assert_eq!(b.act_common_params, b"770#150#200".to_vec());
    let (total, crossed) = s.apply_storage_with_threshold(&mut mgr, &c, &mut uids, 1, 500, 1000);
    assert_eq!(total, 200);
    assert_eq!(crossed, 1);
    assert_eq!(s.current(1), 200);
    assert_eq!(s.apply_storage(&mut mgr, &c, &mut uids, 1, -3, 1000), 200);
    assert_eq!(mgr.get(1).len(), 1);
}

#[test]
fn empathy_sync_buff_state_sets_and_drops() {
    let c = cfg();
    let mut mgr = BuffMgr::new();
    let mut uids = BuffUidCounters::new();
    let mut s = EmpathyState::new();
    s.sync_buff_state(&mut mgr, &c, &mut uids, 2, 900, 1000);
    assert_eq!(s.current(2), 200);
    assert_eq!(mgr.get(2)[0].act_common_params, b"770#200#200".to_vec());
    s.sync_buff_state(&mut mgr, &c, &mut uids, 2, -1, 1000);
    assert_eq!(s.current(2), 0);
    assert_eq!(mgr.get(2)[0].act_common_params, b"770#0#200".to_vec());
}

#[test]
fn empathy_sync_from_buff_mgr_reads_last_instance() {
    let c = cfg();
    let mut mgr = BuffMgr::new();
    mgr.add_with_uid(1, 30800142, 1, 0, 0, 40, &c);
    mgr.set_instance_act_common_params(1, 40, b"770#33#200".to_vec());
    mgr.add_with_uid(2, 30800141, 2, 0, 0, 41, &c);
    mgr.set_instance_act_common_params(2, 41, b"771#33#200".to_vec());
    let mut s = EmpathyState::new();
    let mut uids = BuffUidCounters::new();
    let mut other = BuffMgr::new();
    s.sync_buff_state(&mut other, &c, &mut uids, 9, 50, 1000);
    s.sync_from_buff_mgr(&mgr, &c);
    assert_eq!(s.current(1), 33);
    // wrong act id in the parameters reads as nothing
    assert_eq!(s.current(2), 0);
    // holders missing from the manager are dropped
    assert_eq!(s.current(9), 0);
}

fn entity(uid: i64, buffs: Vec<BuffInfo>, no_effect: Vec<BuffInfo>) -> FightEntityInfo {
    FightEntityInfo {
        uid: Some(uid),
        model_id: Some(3080),
        position: Some(1),
        team_type: Some(1),
        current_hp: Some(10),
        ex_point: Some(0),
        ex_point_type: Some(0),
        attr: Some(AttrInfo { hp: Some(10) }),
        base_attr: None,
        buffs,
        no_effect_buffs: no_effect,
        passive_skill: vec![],
    }
}

fn info(buff_id: i32, params: &str) -> BuffInfo {
    BuffInfo {
        uid: Some(1),
        buff_id: Some(buff_id),
        from_uid: None,
        count: None,
        layer: None,
        act_common_params: Some(params.as_bytes().to_vec()),
    }
}

#[test]
fn empathy_init_reads_snapshot() {
    let c = cfg();
    let f = Fight {
        battle_id: Some(1),
        episode_id: None,
        cur_wave: Some(1),
        attacker: Some(FightTeamInfo {
            entitys: vec![
                entity(1, vec![info(500, "770#9#1"), info(30800141, " 770 # 44 #200")], vec![]),
                entity(2, vec![], vec![info(30800143, "770#0#300")]),
            ],
            sub_entitys: vec![],
            cloth_id: None,
            power: None,
        }),
        defender: Some(FightTeamInfo { entitys: vec![entity(-1, vec![], vec![info(30800142, "770#12")])], sub_entitys: vec![], cloth_id: None, power: None }),
    };
    let mut s = EmpathyState::new();
    s.init(&f, &c);
    assert_eq!(s.current(1), 44);
    assert_eq!(s.current(2), 0);
    assert_eq!(s.current(-1), 12);
}

#[test]
fn empathy_storage_with_a_negative_cap_and_a_large_total() {
    let mut c = cfg();
    c.injury_bank = vec![InjuryBankRow { buff_id: 30800141, params: params(-1000, 1, 0) }];
    let mut mgr = BuffMgr::new();
    mgr.add_with_uid(1, 30800141, 1, 0, 0, 40, &c);
    mgr.set_instance_act_common_params(1, 40, format!("770#{}#0", i32::MAX).into_bytes());
    let mut s = EmpathyState::new();
    s.sync_from_buff_mgr(&mgr, &c);
    assert_eq!(s.current(1), i32::MAX);
    let mut uids = BuffUidCounters::new();
    let (total, crossed) = s.apply_storage_with_threshold(&mut mgr, &c, &mut uids, 1, 5, 1000);
    assert_eq!(total, -1000);
    assert_eq!(crossed, 0);
    assert!(has_empathy_buff(&mgr, &c, 1));
    assert_eq!(s.current(1), -1000);
}
