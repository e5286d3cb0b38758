use gameserver::active_effect_mgr::ActiveEffectMgr;
use gameserver::advanced_cure::{iter_alive_uids, parse_advanced_cure_features};
use gameserver::channel::ChannelState;
use gameserver::cloth_mgr::{ClothMgr, active_cloth_level, apply_cloth_power_delta, parse_cloth_recover_delta, seed_attacker_power_from_cloth};
use gameserver::config::ClothLevelRow;
use gameserver::config::{BattleConfig, BuffActRow, MagicCircleRow, MonsterSkillTemplateRow, SkillBuffRow, SkillEffectRow};
use gameserver::dot::{DotKind, parse_dot_features};
use gameserver::fight::{AttrInfo, BuffInfo, Fight, FightEntityInfo, FightTeamInfo};
use gameserver::fight_data_mgr::{BattleContext, Managers};
use gameserver::heroes::{HeroId, find_uid};
use gameserver::magic_circle::is_magic_circle_self_skill;
use gameserver::buff_mgr::BuffMgr;
use gameserver::passive_mgr::{PassiveMgr, RuleMgr, all_entity_uids, rule_matches};
use gameserver::passive_phase::{PassivePhaseConfig, PhaseDepth, PhaseScope, PhaseSkillSet, PhaseStepShape};
use gameserver::phase_change::{PhaseChangeState, determine_spawn_form};
use gameserver::round_end_bundling::{HeroStepSignals, StepOwnership, discover_buff_ids_with_acts, inspect};
use gameserver::step::{ActType, Effect, Step};
use gameserver::mechanics::Mechanics;
use gameserver::shadowcloak::SeededRaspberryMax;
use gameserver::round_mgr::{BattleEndState, FightRoundMgr, SimulatedRound, set_simulated_round, simulated_round};
use gameserver::config::{BattleRow, EpisodeRow};
use gameserver::buff_mgr::BuffInstance;
use gameserver::sentinel::{CHANNEL_LAYER_BUFF_ID, CHANNEL_STATE_BUFF_ID, active_holder, consume_layer};
use gameserver::wave_mgr::WaveMgr;
use gameserver::text::{parse_field_range, trim_range};
use gameserver::rules::{collect_battle_rule_skills, collect_rules};

fn entity(uid: i64, model: i32, hp: i32, passives: Vec<i32>) -> FightEntityInfo {
    FightEntityInfo {
        uid: Some(uid),
        model_id: Some(model),
        position: Some(1),
        team_type: Some(if uid >= 0 { 1 } else { 2 }),
        current_hp: Some(hp),
        ex_point: Some(0),
        ex_point_type: Some(0),
        attr: Some(AttrInfo { hp: Some(100) }),
        base_attr: None,
        buffs: vec![],
        no_effect_buffs: vec![],
        passive_skill: passives,
    }
}

fn fight(att: Vec<FightEntityInfo>, sub: Vec<FightEntityInfo>, def: Vec<FightEntityInfo>) -> Fight {
    Fight {
        battle_id: Some(1),
        episode_id: None,
        cur_wave: Some(1),
        attacker: Some(FightTeamInfo { entitys: att, sub_entitys: sub, cloth_id: None, power: None }),
        defender: Some(FightTeamInfo { entitys: def, sub_entitys: vec![], cloth_id: None, power: None }),
    }
}

fn base_cfg() -> BattleConfig {
    BattleConfig {
        skill_buff: vec![],
        skill_bufftype: vec![],
        buff_act: vec![],
        monster_skill_template: vec![],
        injury_bank: vec![],
        magic_circle: vec![],
        skill_effect: vec![],
        cloth_level: vec![],
        episode: vec![],
        battle: vec![],
    }
}

fn buff(id: i32, type_id: i32, features: &str) -> SkillBuffRow {
    SkillBuffRow { id, type_id, during_time: 0, effect_count: 1, features: features.as_bytes().to_vec() }
}

#[test]
fn wave_of_defender_uids() {
    assert_eq!(WaveMgr::expected_wave_for_uid(5), None);
    assert_eq!(WaveMgr::expected_wave_for_uid(0), None);
    assert_eq!(WaveMgr::expected_wave_for_uid(-1), Some(1));
    assert_eq!(WaveMgr::expected_wave_for_uid(-2), Some(1));
    assert_eq!(WaveMgr::expected_wave_for_uid(-3), Some(2));
    assert_eq!(WaveMgr::expected_wave_for_uid(-8), Some(4));
    let _ = WaveMgr::new();
}

#[test]
fn cloth_use_costs_step_through_the_list() {
    let mut m = ClothMgr::new();
    let costs = [3, 5];
    assert_eq!(m.use_cost(30010201, &costs), 3);
    assert_eq!(m.use_cost(30010201, &costs), 5);
    assert_eq!(m.use_cost(30010201, &costs), 5);
    assert_eq!(m.use_cost(30010202, &[]), 0);
    m.reset();
    assert_eq!(m.use_cost(30010201, &costs), 3);
}

#[test]
fn active_effects_push_and_void() {
    let mut m: ActiveEffectMgr<i32> = ActiveEffectMgr::new();
    let a = m.push(vec![1, 2]);
    let b = m.push(vec![3]);
    assert_eq!(a, 0);
    assert_eq!(b, 1);
    assert_eq!(m.map.get(&0), Some(&vec![1, 2]));
    m.void(a);
    assert!(m.map.get(&0).is_none());
    assert_eq!(m.map.len(), 1);
    m.void(7);
    assert_eq!(m.map.len(), 1);
}

#[test]
fn passive_mgr_parses_positioned_entities() {
    let mut off = entity(2, 1, 10, vec![5]);
    off.position = Some(0);
    let f = fight(vec![entity(1, 1, 10, vec![10, 11, 12]), off], vec![], vec![entity(-1, 1, 10, vec![])]);
    let parse = |sid: i32, uid: i64| if sid % 2 == 0 { Some((sid, uid)) } else { None };
    let mut m = PassiveMgr::new(&f, parse);
    assert_eq!(m.get(1), &[(10, 1), (12, 1)]);
    assert!(m.get(2).is_empty());
    assert!(m.get(-1).is_empty());
    m.get_mut(1)[0] = (99, 1);
    assert_eq!(m.get(1)[0], (99, 1));
    assert!(m.get_mut(42).is_empty());
}

#[test]
fn rule_mgr_matches_rule_targets() {
    let f = fight(vec![entity(1, 1, 10, vec![])], vec![entity(2, 1, 10, vec![])], vec![entity(-1, 1, 10, vec![])]);
    assert_eq!(all_entity_uids(&f), vec![1, 2, -1]);
    assert!(rule_matches(1, 0));
    assert!(!rule_matches(1, -3));
    assert!(rule_matches(2, -3));
    assert!(rule_matches(3, -3));
    let rules = vec![(1, 70), (2, 71), (0, 72)];
    let m = RuleMgr::new(&f, &rules, |eid: i32, uid: i64| if eid == 72 && uid == 2 { None } else { Some((eid, uid)) });
    assert_eq!(m.effects, vec![(70, 1), (70, 2), (71, -1), (72, 1), (72, -1)]);
}

#[test]
fn simulated_round_is_recorded() {
    let mut r = SimulatedRound { round: 0 };
    set_simulated_round(&mut r, 4);
    assert_eq!(simulated_round(&r), 4);
    let _ = FightRoundMgr::new();
}

#[test]
fn phase_change_queue_drains_in_order() {
    let mut s = PhaseChangeState::new();
    s.queue_will_buff(11430011, 5);
    s.queue_will_buff(11430031, 6);
    assert_eq!(s.pending_will_buff_ids(), vec![11430011, 11430031]);
    assert_eq!(s.drain_pending(), vec![(11430011, 5), (11430031, 6)]);
    assert!(s.pending_will_buff_ids().is_empty());
    assert_eq!(determine_spawn_form(251417, &[]), Some(251414));
    assert_eq!(determine_spawn_form(251416, &[11430011]), None);
}

fn channel_cfg() -> BattleConfig {
    let mut c = base_cfg();
    c.skill_buff = vec![buff(900, 9, "5#1|8#2"), buff(901, 9, "5#1")];
    c.buff_act = vec![
        BuffActRow { id: 5, act_type: "Attr".to_string() },
        BuffActRow { id: 8, act_type: "AttrFromEntity".to_string() },
    ];
    c.skill_effect = vec![
        SkillEffectRow { id: 40, behaviors: vec![b"1#900#1".to_vec(), b"".to_vec(), b"1#901".to_vec(), b"1#900".to_vec()] },
        SkillEffectRow { id: 41, behaviors: vec![b"2#900".to_vec(), b"1# 900".to_vec()] },
    ];
    c
}

#[test]
fn channel_init_collects_monitoring_passives() {
    let c = channel_cfg();
    let f = fight(vec![entity(1, 1, 10, vec![41, 40, 99]), entity(2, 1, 10, vec![40])], vec![entity(3, 1, 10, vec![40])], vec![]);
    let mut s = ChannelState::new();
    assert!(!s.is_active());
    s.init(&f, &c);
    assert!(s.is_active());
    assert_eq!(s.monitor_triggers, vec![(1, 40), (1, 40), (2, 40), (2, 40)]);
}

#[test]
fn dot_features_find_poison_family() {
    let mut c = base_cfg();
    c.buff_act = vec![
        BuffActRow { id: 803, act_type: "Poison".to_string() },
        BuffActRow { id: 844, act_type: "DeadlyPoison".to_string() },
        BuffActRow { id: 1, act_type: "Attr".to_string() },
    ];
    c.skill_buff = vec![
        buff(1, 1, "1#5|803#0|844# 120 "),
        buff(2, 1, "803#50"),
        buff(3, 1, "1#5|9#1|803#50"),
        buff(4, 1, "803#x|844#10"),
        buff(5, 1, ""),
        buff(6, 1, "1#5"),
    ];
    assert_eq!(parse_dot_features(&c, 1), Some((DotKind::DeadlyPoison, 120)));
    assert_eq!(parse_dot_features(&c, 2), Some((DotKind::Poison, 50)));
    // an entry with an unknown act ends the scan
    assert_eq!(parse_dot_features(&c, 3), None);
    // an unreadable permille ends the scan
    assert_eq!(parse_dot_features(&c, 4), None);
    assert_eq!(parse_dot_features(&c, 5), None);
    assert_eq!(parse_dot_features(&c, 6), None);
    assert_eq!(parse_dot_features(&c, 7), None);
}

#[test]
fn magic_circle_self_skills() {
    let mut c = base_cfg();
    c.magic_circle = vec![
        MagicCircleRow { id: 1, self_skills: b" 3200101 ".to_vec() },
        MagicCircleRow { id: 2, self_skills: b"".to_vec() },
    ];
    assert!(is_magic_circle_self_skill(&c, 3200101));
    assert!(!is_magic_circle_self_skill(&c, 3200102));
}

#[test]
fn nautika_found_on_her_side() {
    let f = fight(vec![entity(1, 3080, 10, vec![]), entity(4, 3120, 10, vec![])], vec![], vec![entity(-2, 3120, 10, vec![])]);
    assert_eq!(find_uid(&f, 1), Some(4));
    assert_eq!(find_uid(&f, 2), Some(-2));
    let g = fight(vec![entity(1, 3080, 10, vec![])], vec![], vec![]);
    assert_eq!(find_uid(&g, 1), None);
}

#[test]
fn sentinel_holder_and_layer_spending() {
    let mut c = base_cfg();
    c.skill_buff = vec![buff(CHANNEL_STATE_BUFF_ID, 1, ""), buff(CHANNEL_LAYER_BUFF_ID, 2, "")];
    let f = fight(vec![entity(1, 3126, 0, vec![]), entity(2, 3126, 50, vec![])], vec![entity(3, 3126, 50, vec![])], vec![]);
    let mut mgr = BuffMgr::new();
    assert!(active_holder(&f, &mgr).is_none());
    for uid in [1i64, 2, 3] {
        mgr.add_with_uid(uid, CHANNEL_STATE_BUFF_ID, uid, 1, 0, 10 * uid, &c);
        mgr.add_with_uid(uid, CHANNEL_LAYER_BUFF_ID, uid, 1, 2, 10 * uid + 1, &c);
    }
    // the dead hero is skipped
    let (holder, layer) = active_holder(&f, &mgr).unwrap();
    assert_eq!(holder, 2);
    assert_eq!(layer.uid, 21);
    consume_layer(&mut mgr, holder, &layer, &c);
    let b = mgr.get(2).iter().find(|b| b.uid == 21).unwrap();
    assert_eq!(b.layer, 1);
    assert_eq!(b.stacks, 1);
    let (_, layer) = active_holder(&f, &mgr).unwrap();
    consume_layer(&mut mgr, 2, &layer, &c);
    let b = mgr.get(2).iter().find(|b| b.uid == 21).unwrap();
    assert_eq!(b.layer, 0);
    assert_eq!(b.stacks, 1);
    // with no layer the count is spent; a count of zero re-adds the
    // counter with the table's count
    let (_, layer) = active_holder(&f, &mgr).unwrap();
    consume_layer(&mut mgr, 2, &layer, &c);
    let b = mgr.get(2).iter().find(|b| b.uid == 21).unwrap();
    assert_eq!(b.stacks, 1);
    assert_eq!(b.layer, 0);
    let (holder, _) = active_holder(&f, &mgr).unwrap();
    assert_eq!(holder, 2);
    // once the second hero loses the channel state, the substitute holds
    mgr.remove_by_uid(2, 20);
    let (holder, layer) = active_holder(&f, &mgr).unwrap();
    assert_eq!(holder, 3);
    assert_eq!(layer.uid, 31);
}

#[test]
fn step_ownership_collects_signals() {
    let inner = Step {
        act_type: Some(ActType::Effect),
        from_id: Some(-1),
        to_id: Some(6),
        act_id: None,
        act_effect: vec![plain_effect(None), plain_effect(Some(6))],
    };
    let mut wrapper = plain_effect(Some(-1));
    wrapper.fight_step = Some(Box::new(inner));
    let root = Step { act_type: Some(ActType::Skill), from_id: Some(5), to_id: Some(-1), act_id: Some(1), act_effect: vec![wrapper] };
    let o = inspect(&root, &vec![(HeroId::Semmelweis, 5), (HeroId::Nautika, 6)]);
    assert_eq!(o.hero(HeroId::Semmelweis), HeroStepSignals { from: true, to: false, targets: false, skill_from: true });
    assert_eq!(o.hero(HeroId::Nautika), HeroStepSignals { from: false, to: true, targets: true, skill_from: false });
    assert_eq!(o.hero(HeroId::Kakania), HeroStepSignals::default());
    let bare = Step { act_type: None, from_id: None, to_id: None, act_id: None, act_effect: vec![] };
    let empty = inspect(&bare, &vec![(HeroId::Semmelweis, 5)]);
    assert_eq!(empty.hero(HeroId::Semmelweis), HeroStepSignals::default());
    assert_eq!(StepOwnership::default().hero(HeroId::Nautika), HeroStepSignals::default());
}

fn plain_effect(target: Option<i64>) -> Effect {
    Effect { effect_type: Some(1), target_id: target, effect_num: None, effect_num1: None, reserve_id: None, buff: None, fight_step: None }
}

#[test]
fn managers_start_from_the_snapshot() {
    let f = fight(vec![entity(1, 3080, 10, vec![])], vec![], vec![entity(-1, 900, 10, vec![])]);
    let m = Managers::new(&f, &vec![MonsterSkillTemplateRow { id: 900, unique_skill_point: 3 }]);
    assert_eq!(m.entity_mgr.get_hp(1), 10);
    assert_eq!(m.entity_mgr.get_ex_point_required(-1), 3);
    assert!(m.buff_mgr.is_empty());
    assert_eq!(m.ex_point_mgr.get_hp(1), 0);
    let ctx = BattleContext { player_id: 1, chapter_id: 2, episode_id: 3, battle_id: 4, max_ap: 5 };
    assert_eq!(ctx.battle_id, 4);
    let p = PassivePhaseConfig {
        scope: PhaseScope::Attackers,
        depth: PhaseDepth::AllMatches,
        skill_set: PhaseSkillSet::CombatReactive,
        step_shape: PhaseStepShape::Raw,
    };
    assert_eq!(p.scope, PhaseScope::Attackers);
}

#[allow(dead_code)]
fn unused(_: BuffInfo) {}

#[test]
fn buff_ids_discovered_by_feature_acts() {
    let mut c = base_cfg();
    c.buff_act = vec![
        BuffActRow { id: 1, act_type: "NuoDiKaCastChannel".to_string() },
        BuffActRow { id: 2, act_type: "Attr".to_string() },
        BuffActRow { id: 2, act_type: "Shield".to_string() },
    ];
    c.skill_buff = vec![
        buff(10, 1, "1#0|2#5"),
        buff(11, 1, "2#5"),
        buff(12, 1, ""),
        buff(13, 1, " 1 #x"),
    ];
    let want = |names: &[&str]| -> Vec<i32> {
        let required: Vec<String> = names.iter().map(|n| n.to_string()).collect();
        let mut ids: Vec<i32> = discover_buff_ids_with_acts(&c, &required).into_iter().collect();
        ids.sort();
        ids
    };
    assert_eq!(want(&["NuoDiKaCastChannel"]), vec![10, 13]);
    // the lookup by id keeps the last act row
    assert_eq!(want(&["Shield"]), vec![10, 11]);
    assert!(want(&["Attr"]).is_empty());
    assert_eq!(want(&["NuoDiKaCastChannel", "Shield"]), vec![10]);
    assert_eq!(want(&[]), vec![10, 11, 13]);
}

#[test]
fn mechanics_init_finds_monitors_and_rubuska() {
    let c = channel_cfg();
    let mut rubuska = entity(2, 3125, 10, vec![]);
    rubuska.attr = Some(AttrInfo { hp: Some(2000) });
    let f = fight(vec![entity(1, 1, 10, vec![40]), rubuska], vec![], vec![]);
    let mut m = Mechanics::new();
    m.init(&f, &c, &SeededRaspberryMax::new());
    assert_eq!(m.channel.monitor_triggers, vec![(1, 40), (1, 40)]);
    assert_eq!(m.shadow_cloak.rubuska_uid, 2);
    assert_eq!(m.shadow_cloak.raspberry_max, 300);
    assert!(!m.bloodtithe.has_bloodpool());
}

#[test]
fn cloth_recover_delta_sums_matching_rounds() {
    assert_eq!(parse_cloth_recover_delta(b"1#5|2#3| 2 # 4 |2#-7|2#1#9|x#2|2", 2), 7);
    assert_eq!(parse_cloth_recover_delta(b"1#5", 2), 0);
    assert_eq!(parse_cloth_recover_delta(b"", 0), 0);
}

#[test]
fn cloth_power_is_seeded_and_clamped() {
    let mut c = base_cfg();
    c.cloth_level = vec![
        ClothLevelRow { id: 7, level: 2, initial: 9, max_power: 9 },
        ClothLevelRow { id: 7, level: 1, initial: 5, max_power: 20 },
    ];
    let mut f = fight(vec![entity(1, 1, 10, vec![])], vec![], vec![]);
    assert!(active_cloth_level(&f, &c).is_none());
    f.attacker.as_mut().unwrap().cloth_id = Some(7);
    let cloth = active_cloth_level(&f, &c).unwrap();
    assert_eq!(cloth.initial, 5);
    apply_cloth_power_delta(&mut f, &cloth, 4);
    assert_eq!(f.attacker.as_ref().unwrap().power, Some(9));
    apply_cloth_power_delta(&mut f, &cloth, 100);
    assert_eq!(f.attacker.as_ref().unwrap().power, Some(20));
    apply_cloth_power_delta(&mut f, &cloth, -30);
    assert_eq!(f.attacker.as_ref().unwrap().power, Some(0));
    seed_attacker_power_from_cloth(&mut f, &cloth);
    assert_eq!(f.attacker.as_ref().unwrap().power, Some(0));
    f.attacker.as_mut().unwrap().power = None;
    seed_attacker_power_from_cloth(&mut f, &cloth);
    assert_eq!(f.attacker.as_ref().unwrap().power, Some(5));
}

#[test]
fn battle_state_from_who_is_alive() {
    let mgr = FightRoundMgr::new();
    let mut f = fight(vec![entity(1, 1, 10, vec![])], vec![], vec![entity(-1, 1, 5, vec![])]);
    assert_eq!(mgr.check_battle_state(&f, 1, 2), BattleEndState::Ongoing);
    f.defender.as_mut().unwrap().entitys[0].current_hp = Some(0);
    assert_eq!(mgr.check_battle_state(&f, 1, 2), BattleEndState::WaveCleared);
    assert_eq!(mgr.check_battle_state(&f, 2, 2), BattleEndState::Victory);
    f.attacker.as_mut().unwrap().entitys[0].current_hp = None;
    assert_eq!(mgr.check_battle_state(&f, 1, 2), BattleEndState::Defeat);
}

#[test]
fn max_wave_counts_monster_groups() {
    let mgr = FightRoundMgr::new();
    let mut c = base_cfg();
    c.episode = vec![EpisodeRow { id: 10, battle_id: 20 }, EpisodeRow { id: 11, battle_id: 21 }];
    c.battle = vec![
        BattleRow { id: 20, monster_group_ids: b"1#2#3".to_vec(), addition_rule: vec![], hidden_rule: vec![] },
        BattleRow { id: 21, monster_group_ids: vec![], addition_rule: vec![], hidden_rule: vec![] },
    ];
    let mut f = fight(vec![entity(1, 1, 10, vec![])], vec![], vec![entity(-1, 1, 0, vec![])]);
    assert_eq!(mgr.get_max_wave(&f, &c), 1);
    f.episode_id = Some(10);
    assert_eq!(mgr.get_max_wave(&f, &c), 3);
    // wave 1 of 3 cleared: not over yet
    assert!(!mgr.check_battle_end(&f, &c));
    f.cur_wave = Some(3);
    assert!(mgr.check_battle_end(&f, &c));
    f.episode_id = Some(11);
    assert_eq!(mgr.get_max_wave(&f, &c), 1);
}

#[test]
fn first_alive_defender_skips_dead_and_benched() {
    let mgr = FightRoundMgr::new();
    let mut benched = entity(-2, 1, 9, vec![]);
    benched.position = Some(0);
    let mut f = fight(vec![], vec![], vec![entity(-1, 1, 0, vec![]), benched]);
    assert_eq!(mgr.first_alive_defender_uid(&f), None);
    f.defender.as_mut().unwrap().sub_entitys = vec![entity(-3, 1, 4, vec![])];
    assert_eq!(mgr.first_alive_defender_uid(&f), Some(-3));
}

fn inst(uid: i64, buff_id: i32, type_id: i32) -> BuffInstance {
    BuffInstance { uid, buff_id, type_id, from_uid: 0, duration: 0, stacks: 1, layer: 0, act_common_params: vec![] }
}

#[test]
fn deleted_ids_between_listings() {
    let mgr = FightRoundMgr::new();
    let before = vec![(1, inst(5, 100, 10)), (1, inst(6, 100, 10)), (2, inst(5, 200, 0)), (3, inst(7, 300, 300))];
    let after = vec![(1, inst(6, 100, 10)), (3, inst(7, 300, 300))];
    assert_eq!(mgr.deleted_buff_ids_from_delta(&before, &after), vec![100, 10, 200]);
    assert!(mgr.deleted_buff_ids_from_delta(&after, &before).is_empty());
}

#[test]
fn advanced_cure_features_and_alive_uids() {
    let mut c = base_cfg();
    c.buff_act = vec![
        BuffActRow { id: 849, act_type: "AdvancedCure".to_string() },
        BuffActRow { id: 1, act_type: "Attr".to_string() },
    ];
    c.skill_buff = vec![
        buff(1, 1, "1#5|849#2#102#500#4000"),
        buff(2, 1, "849#2#102#0|849#2#103# 300 "),
        buff(3, 1, "849#2#102"),
        buff(4, 1, "7#1|849#2#102#500"),
        buff(5, 1, "1#5"),
    ];
    assert_eq!(parse_advanced_cure_features(&c, 1), Some((102, 500)));
    assert_eq!(parse_advanced_cure_features(&c, 2), Some((103, 300)));
    assert_eq!(parse_advanced_cure_features(&c, 3), None);
    assert_eq!(parse_advanced_cure_features(&c, 4), None);
    assert_eq!(parse_advanced_cure_features(&c, 5), None);
    assert_eq!(parse_advanced_cure_features(&c, 6), None);
    let f = fight(
        vec![entity(1, 1, 10, vec![]), entity(2, 1, 0, vec![])],
        vec![entity(3, 1, 5, vec![])],
        vec![entity(-1, 1, 7, vec![])],
    );
    assert_eq!(iter_alive_uids(&f), vec![1, 3, -1]);
}

#[test]
fn active_effect_handles_are_never_reused() {
    let mut m: ActiveEffectMgr<i32> = ActiveEffectMgr::new();
    assert_eq!(m.push(vec![1]), 0);
    m.void(0);
    assert_eq!(m.push(vec![2]), 1);
    assert_eq!(m.push(vec![3]), 2);
    m.void(1);
    assert_eq!(m.push(vec![4]), 3);
    assert_eq!(m.map.len(), 2);
}

#[test]
fn passive_mgr_loads_every_side_and_keeps_the_later_duplicate() {
    let f = fight(
        vec![entity(1, 1, 10, vec![10, 12])],
        vec![entity(1, 1, 10, vec![14])],
        vec![entity(-1, 1, 10, vec![20, 22, 24])],
    );
    let m = PassiveMgr::new(&f, |sid: i32, uid: i64| Some((sid, uid)));
    assert_eq!(m.get(1), &[(14, 1)]);
    assert_eq!(m.get(-1), &[(20, -1), (22, -1), (24, -1)]);
}

#[test]
fn rule_mgr_parses_rule_by_rule_then_uid_by_uid() {
    let f = fight(vec![entity(1, 1, 10, vec![]), entity(2, 1, 10, vec![])], vec![], vec![entity(-1, 1, 10, vec![])]);
    let rules = vec![(3, 80), (1, 81)];
    let m = RuleMgr::new(&f, &rules, |eid: i32, uid: i64| Some((eid, uid)));
    assert_eq!(m.effects, vec![(80, 1), (80, 2), (80, -1), (81, 1), (81, 2)]);
}

#[test]
fn battle_rules_are_read_from_the_battle_row() {
    let mut c = base_cfg();
    c.battle = vec![BattleRow {
        id: 1,
        monster_group_ids: vec![],
        addition_rule: b"1#500|4#501|2#x|3#502".to_vec(),
        hidden_rule: b"2#503#9".to_vec(),
    }];
    let f = fight(vec![], vec![], vec![]);
    let resolve = |sk: i32| sk * 10;
    assert_eq!(collect_rules(&f, &c, resolve), vec![(1, 5000), (3, 5020), (2, 5030)]);
    assert_eq!(collect_battle_rule_skills(&f, &c, resolve), vec![5000, 5020, 5030]);
    let mut other = fight(vec![], vec![], vec![]);
    other.battle_id = Some(2);
    assert!(collect_rules(&other, &c, resolve).is_empty());
}

#[test]
fn fields_are_trimmed_of_unicode_whitespace() {
    let text = "\u{a0} 42\u{3000}\t".as_bytes();
    assert_eq!(parse_field_range(text, 0, text.len()), Some(42));
    let (a, e) = trim_range(text, 0, text.len());
    assert_eq!(&text[a..e], b"42");
    let inner = "\u{2028}-7\u{85}".as_bytes();
    assert_eq!(parse_field_range(inner, 0, inner.len()), Some(-7));
    let not_ws = "\u{200b}5".as_bytes();
    assert_eq!(parse_field_range(not_ws, 0, not_ws.len()), None);
}
