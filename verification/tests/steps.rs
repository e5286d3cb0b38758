use gameserver::nautika_psychube_bundle::{
    BOSS_CYCLE_ACT_ID, CARRIER_HOST_ACT_ID, ENEMY_CYCLE_DEL_ACT_ID, WrapInfo, consolidate_into_bundle, ensure_tail_marker,
    strip_post_turn_noise,
};
use gameserver::bundle_fold::fold;
use gameserver::step_shape::split_updates_and_wrap_rest;
use gameserver::passive_phase::{PassivePhaseConfig, PhaseDepth, PhaseScope, PhaseSkillSet, PhaseStepShape, CollectedPassives, bootstrap_order, gather_sweep_effects, rule_only_order, run_passive_phase, sweep_entity, sweep_skills};
use gameserver::fight::Fight;
use gameserver::step::{ActType, Effect, Step};

fn effect(t: i32, target: i64) -> Effect {
    Effect {
        effect_type: Some(t),
        target_id: Some(target),
        effect_num: None,
        effect_num1: None,
        reserve_id: None,
        buff: None,
        fight_step: None,
    }
}

fn step(act_type: ActType, act_id: Option<i32>, from: i64, effects: Vec<Effect>) -> Step {
    Step { act_type: Some(act_type), from_id: Some(from), to_id: Some(from), act_id, act_effect: effects }
}

fn wrap(act_id: i32, from: i64) -> Option<WrapInfo> {
    Some(WrapInfo { act_id: Some(act_id), from_id: Some(from), to_id: Some(from) })
}

fn round() -> (Vec<Step>, Vec<Vec<Option<WrapInfo>>>) {
    let host = step(ActType::Effect, Some(CARRIER_HOST_ACT_ID), 7, vec![]);
    let mut bundle_wrapper = effect(162, 7);
    bundle_wrapper.fight_step = Some(Box::new(host));
    let steps = vec![
        step(ActType::Effect, None, 0, vec![effect(276, 0)]),
        step(ActType::Effect, None, 7, vec![bundle_wrapper]),
        step(ActType::Effect, None, 0, vec![effect(162, 5), effect(162, -1), effect(9, 3)]),
        step(ActType::Effect, None, 0, vec![effect(162, -2)]),
        step(ActType::Skill, Some(1), 3, vec![effect(162, -3)]),
    ];
    let wraps = vec![
        vec![None],
        vec![None],
        vec![wrap(BOSS_CYCLE_ACT_ID, 5), wrap(ENEMY_CYCLE_DEL_ACT_ID, -1), None],
        vec![wrap(ENEMY_CYCLE_DEL_ACT_ID, -2)],
        vec![wrap(ENEMY_CYCLE_DEL_ACT_ID, -3)],
    ];
    (steps, wraps)
}

fn prepared(steps: &Vec<Step>) -> Vec<Vec<Option<Effect>>> {
    steps
        .iter()
        .enumerate()
        .map(|(i, s)| {
            s.act_effect
                .iter()
                .enumerate()
                .map(|(j, _)| if i == 2 && j == 0 { Some(effect(162, 55)) } else { None })
                .collect()
        })
        .collect()
}

#[test]
fn bundle_takes_semmelweis_broadcast_and_drops_orphans() {
    let (mut steps, wraps) = round();
    let p = prepared(&steps);
    consolidate_into_bundle(&mut steps, &wraps, p, Some(5), Some(7), &vec![CARRIER_HOST_ACT_ID], true);
    assert_eq!(steps.len(), 4);
    assert_eq!(steps[1].act_effect.len(), 2);
    assert_eq!(steps[1].act_effect[1].target_id, Some(55));
    assert_eq!(steps[2].act_effect.len(), 1);
    assert_eq!(steps[2].act_effect[0].effect_type, Some(9));
    // a skill step is not swept
    assert_eq!(steps[3].act_type, Some(ActType::Skill));
    assert_eq!(steps[3].act_effect.len(), 1);
}

#[test]
fn bundle_untouched_without_nautika_or_carrier() {
    let (mut steps, wraps) = round();
    let p = prepared(&steps);
    consolidate_into_bundle(&mut steps, &wraps, p, Some(5), None, &vec![CARRIER_HOST_ACT_ID], true);
    assert_eq!(steps.len(), 5);
    let (mut steps, wraps) = round();
    let p = prepared(&steps);
    consolidate_into_bundle(&mut steps, &wraps, p, Some(5), Some(7), &vec![CARRIER_HOST_ACT_ID], false);
    assert_eq!(steps.len(), 5);
    assert_eq!(steps[2].act_effect.len(), 3);
}

#[test]
fn bundle_without_semmelweis_broadcast_keeps_allies() {
    let (mut steps, wraps) = round();
    let p = prepared(&steps);
    // Semmelweis is someone else: the ally broadcast stays, enemy deletions go
    consolidate_into_bundle(&mut steps, &wraps, p, Some(6), Some(7), &vec![CARRIER_HOST_ACT_ID], true);
    assert_eq!(steps.len(), 4);
    assert_eq!(steps[1].act_effect.len(), 1);
    assert_eq!(steps[2].act_effect.len(), 2);
    assert_eq!(steps[2].act_effect[0].target_id, Some(5));
}

#[test]
fn tail_marker_goes_after_the_last_buff_update() {
    let mut skill = step(ActType::Skill, Some(BOSS_CYCLE_ACT_ID), 5, vec![effect(7, 1), effect(3, 1), effect(7, 2), effect(9, 1)]);
    ensure_tail_marker(&mut skill, 5);
    let types: Vec<i32> = skill.act_effect.iter().map(|e| e.effect_type.unwrap()).collect();
    assert_eq!(types, vec![7, 3, 7, 26, 9]);
    assert_eq!(skill.act_effect[3].target_id, Some(5));
    assert_eq!(skill.act_effect[3].effect_num, Some(0));
    ensure_tail_marker(&mut skill, 5);
    assert_eq!(skill.act_effect.len(), 5);
    let mut other = step(ActType::Skill, Some(1), 5, vec![effect(7, 1)]);
    ensure_tail_marker(&mut other, 5);
    assert_eq!(other.act_effect.len(), 1);
}

fn host_step(act_id: i32) -> Step {
    let inner = step(ActType::Effect, Some(act_id), 7, vec![]);
    let mut w = effect(162, 0);
    w.fight_step = Some(Box::new(inner));
    step(ActType::Effect, None, 7, vec![w])
}

#[test]
fn fold_moves_claimed_steps_into_the_lowest_ranked_host() {
    let mut steps = vec![
        step(ActType::Skill, Some(1), 3, vec![effect(1, 3)]),
        host_step(900),
        step(ActType::Skill, Some(2), 4, vec![]),
        step(ActType::Skill, Some(3), 5, vec![]),
        host_step(901),
    ];
    let specs = vec![vec![900], vec![901, 902]];
    let ranks = vec![
        vec![Some(1), Some(2)],
        vec![Some(0), Some(0)],
        vec![None, None],
        vec![Some(5), Some(5)],
        vec![Some(0), None],
    ];
    fold(&mut steps, &specs, &ranks);
    assert_eq!(steps.len(), 3);
    // both claims tie or favour the first bundle
    assert_eq!(steps[0].act_effect.len(), 3);
    assert_eq!(steps[0].act_effect[1].effect_type, Some(162));
    assert_eq!(steps[0].act_effect[1].fight_step.as_ref().unwrap().act_id, Some(1));
    assert_eq!(steps[0].act_effect[2].fight_step.as_ref().unwrap().act_id, Some(3));
    assert_eq!(steps[1].act_id, Some(2));
    assert_eq!(steps[2].act_effect.len(), 1);
}

#[test]
fn fold_without_hosts_keeps_everything() {
    let mut steps = vec![step(ActType::Skill, Some(1), 3, vec![]), step(ActType::Skill, Some(2), 3, vec![])];
    fold(&mut steps, &vec![vec![900]], &vec![vec![Some(1)], vec![Some(2)]]);
    assert_eq!(steps.len(), 2);
}

#[test]
fn post_turn_noise_goes_after_the_round_end() {
    let mut attr = effect(60, 0);
    attr.effect_num = Some(1);
    let bare = |effects: Vec<Effect>| Step { act_type: Some(ActType::Effect), from_id: None, to_id: None, act_id: None, act_effect: effects };
    let mut steps = vec![
        bare(vec![effect(60, 0)]),
        step(ActType::Effect, None, 0, vec![effect(276, 0)]),
        bare(vec![attr]),
        bare(vec![effect(162, 0)]),
        bare(vec![effect(61, 4)]),
    ];
    let wraps = vec![vec![None], vec![None], vec![None], vec![wrap(BOSS_CYCLE_ACT_ID, -1)], vec![None]];
    strip_post_turn_noise(&mut steps, &wraps, true);
    assert_eq!(steps.len(), 3);
    assert_eq!(steps[0].act_effect[0].effect_type, Some(60));
    assert_eq!(steps[2].act_effect[0].target_id, Some(4));
    let mut untouched = vec![bare(vec![effect(276, 0)]), bare(vec![effect(60, 0)])];
    strip_post_turn_noise(&mut untouched, &vec![vec![None], vec![None]], false);
    assert_eq!(untouched.len(), 2);
}

fn sweep_cfg(skill_set: PhaseSkillSet, depth: PhaseDepth) -> PassivePhaseConfig {
    PassivePhaseConfig { scope: PhaseScope::Defenders, depth, skill_set, step_shape: PhaseStepShape::Raw }
}

#[test]
fn sweep_skills_add_battle_rules_for_defenders_only() {
    let cfg = sweep_cfg(PhaseSkillSet::ExcludeBattleRule, PhaseDepth::AllMatches);
    let own = vec![10, 11];
    let rules = vec![11, 20, 21, 20];
    let bd = vec![21];
    assert_eq!(sweep_skills(&cfg, false, &own, &rules, &bd, &vec![], &vec![]), vec![10, 11, 20]);
    // attackers never fire battle rules, even their own copies
    assert_eq!(sweep_skills(&cfg, true, &own, &rules, &bd, &vec![], &vec![]), vec![10]);
    let reactive = sweep_cfg(PhaseSkillSet::CombatReactive, PhaseDepth::AllMatches);
    assert_eq!(sweep_skills(&reactive, true, &vec![10, 12, 30630171], &vec![], &vec![], &vec![], &vec![12]), vec![12, 30630171]);
}

#[test]
fn sweep_gathers_until_the_first_match() {
    let mut marker_inner = step(ActType::Effect, None, 0, vec![effect(7, 1)]);
    marker_inner.act_effect[0].effect_num = Some(0);
    let mut marker = effect(162, 0);
    marker.fight_step = Some(Box::new(marker_inner));
    let outs = vec![vec![], vec![marker], vec![effect(5, 1), effect(6, 1)], vec![effect(8, 1)]];
    let first = sweep_cfg(PhaseSkillSet::CombatReactive, PhaseDepth::FirstMatch);
    let (effects, done) = gather_sweep_effects(outs, &vec![false, true, false, false], &first);
    assert!(done);
    let types: Vec<i32> = effects.iter().map(|e| e.effect_type.unwrap()).collect();
    assert_eq!(types, vec![5, 6]);
    let all = sweep_cfg(PhaseSkillSet::CombatReactive, PhaseDepth::AllMatches);
    let outs = vec![vec![effect(5, 1)], vec![effect(8, 1)]];
    let (effects, done) = gather_sweep_effects(outs, &vec![false, false], &all);
    assert!(!done);
    assert_eq!(effects.len(), 2);
}

#[test]
fn bootstrap_order_lists_teammate_skills_then_rules() {
    let merged = vec![(-1, vec![50, 40, 30]), (-2, vec![40, 20, 60])];
    let teammate = vec![60, 40, 99];
    let rules = vec![30, 60, 70, 20, 30];
    assert_eq!(bootstrap_order(&merged, &teammate, &rules), vec![40, 60, 20, 30]);
    assert!(bootstrap_order(&vec![], &teammate, &rules).is_empty());
}

#[test]
fn split_hoists_updates_and_wraps_the_rest() {
    let mut inner = step(ActType::Effect, Some(5), 1, vec![effect(7, 11), effect(9, 12)]);
    inner.from_id = Some(1);
    let mut wrapper = effect(162, 0);
    wrapper.fight_step = Some(Box::new(inner));
    let phase = vec![
        step(ActType::Effect, None, 0, vec![effect(7, 1), wrapper, effect(3, 2)]),
        step(ActType::Effect, None, 0, vec![effect(7, 4)]),
    ];
    let out = split_updates_and_wrap_rest(phase);
    assert_eq!(out.len(), 2);
    let flat: Vec<Option<i64>> = out[0].act_effect.iter().map(|e| e.target_id).collect();
    assert_eq!(flat, vec![Some(1), Some(11), Some(4)]);
    assert_eq!(out[1].act_effect.len(), 1);
    let group = out[1].act_effect[0].fight_step.as_ref().unwrap();
    assert_eq!(group.act_effect.len(), 2);
    let kept_wrapper = group.act_effect[0].fight_step.as_ref().unwrap();
    assert_eq!(kept_wrapper.act_effect.len(), 1);
    assert_eq!(kept_wrapper.act_effect[0].target_id, Some(12));
}

#[test]
fn split_folds_round_start_containers_into_the_update_step() {
    let marker = step(ActType::Skill, Some(30630171), 1, vec![effect(9, 1)]);
    let mut w = effect(162, 0);
    w.fight_step = Some(Box::new(marker));
    let phase = vec![step(ActType::Effect, None, 0, vec![effect(7, 1), w])];
    let out = split_updates_and_wrap_rest(phase);
    assert_eq!(out.len(), 1);
    assert_eq!(out[0].act_effect.len(), 2);
    assert!(split_updates_and_wrap_rest(vec![]).is_empty());
}

#[test]
fn sweep_entity_runs_skills_until_the_first_contribution() {
    let cfg = sweep_cfg(PhaseSkillSet::ExcludeBattleRule, PhaseDepth::FirstMatch);
    let exec = |_uid: i64, sid: i32| if sid == 10 { vec![] } else { vec![effect(sid, 1)] };
    let out = sweep_entity(&cfg, -1, false, &vec![10, 11, 12], &vec![], &vec![], &vec![], &vec![], &exec);
    let types: Vec<i32> = out.iter().map(|e| e.effect_type.unwrap()).collect();
    assert_eq!(types, vec![11]);
    let all = sweep_cfg(PhaseSkillSet::ExcludeBattleRule, PhaseDepth::AllMatches);
    let out = sweep_entity(&all, -1, false, &vec![10, 11, 12], &vec![13], &vec![], &vec![], &vec![], &exec);
    let types: Vec<i32> = out.iter().map(|e| e.effect_type.unwrap()).collect();
    assert_eq!(types, vec![11, 12, 13]);
}

fn no_fight() -> Fight {
    Fight { battle_id: Some(1), episode_id: None, cur_wave: Some(1), attacker: None, defender: None }
}

fn collected() -> CollectedPassives {
    CollectedPassives {
        attacker: vec![(1, vec![100, 101])],
        defender: vec![(-1, vec![200, 300]), (-2, vec![300])],
        battle_attacker: vec![],
        battle_defender: vec![],
    }
}

#[test]
fn passive_phase_sweeps_each_scope_entity() {
    let cfg = PassivePhaseConfig {
        scope: PhaseScope::Defenders,
        depth: PhaseDepth::AllMatches,
        skill_set: PhaseSkillSet::ExcludeBattleRule,
        step_shape: PhaseStepShape::Raw,
    };
    let exec = |uid: i64, sid: i32| if uid == -2 { vec![] } else { vec![effect(sid, uid)] };
    let out = run_passive_phase(
        &no_fight(), &collected(), &cfg, &vec![vec![], vec![]], &vec![], &vec![], &vec![], &vec![], &vec![], &vec![], &exec,
    );
    assert_eq!(out.len(), 1);
    let types: Vec<i32> = out[0].act_effect.iter().map(|e| e.effect_type.unwrap()).collect();
    assert_eq!(types, vec![200, 300]);
}

#[test]
fn passive_phase_bootstrap_groups_by_skill() {
    let cfg = PassivePhaseConfig {
        scope: PhaseScope::Defenders,
        depth: PhaseDepth::AllMatches,
        skill_set: PhaseSkillSet::DefenderBootstrap,
        step_shape: PhaseStepShape::Raw,
    };
    let exec = |uid: i64, sid: i32| vec![effect(sid, uid)];
    let out = run_passive_phase(
        &no_fight(), &collected(), &cfg, &vec![vec![], vec![]], &vec![200], &vec![], &vec![300], &vec![], &vec![], &vec![], &exec,
    );
    // teammate skill 300 first (both defenders carry it), then rule 200
    assert_eq!(out.len(), 2);
    assert_eq!(out[0].act_effect.len(), 2);
    assert_eq!(out[0].act_effect[1].fight_step.as_ref().unwrap().act_effect[0].target_id, Some(-2));
    assert_eq!(out[1].act_effect.len(), 1);
}

#[test]
fn passive_phase_battle_rules_run_sorted_for_attackers() {
    let cfg = PassivePhaseConfig {
        scope: PhaseScope::Attackers,
        depth: PhaseDepth::AllMatches,
        skill_set: PhaseSkillSet::BattleRuleOnly,
        step_shape: PhaseStepShape::Raw,
    };
    let attackers = vec![(1, vec![30, 10, 20]), (2, vec![10])];
    assert_eq!(rule_only_order(&attackers, &vec![30, 10, 20, 10, 40], &vec![20], &vec![]), vec![10, 10, 30]);
    let exec = |uid: i64, sid: i32| vec![effect(sid, uid)];
    let out = run_passive_phase(
        &no_fight(), &collected(), &cfg, &vec![vec![]], &vec![30, 10], &vec![], &vec![], &attackers, &vec![], &vec![], &exec,
    );
    assert_eq!(out.len(), 2);
    assert_eq!(out[0].act_effect.len(), 2);
    assert_eq!(out[1].act_effect.len(), 1);
}
