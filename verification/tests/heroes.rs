use std::collections::HashMap;
use gameserver::config::{BattleConfig, BuffTypeRow, MonsterSkillTemplateRow, SkillBuffRow, find_buff_row, find_type_row, lookup_skill_point};
use gameserver::heroes::{
    HeroId, ORPHAN_PASSIVE, is_kakania, is_melania, is_nautika, is_pickles, is_recoleta, is_rubuska, is_tuesday,
    is_willow, passive_injections, ult_manual_gain,
};

#[test]
fn hero_model_ids() {
    assert!(is_kakania(Some(3080)));
    assert!(is_melania(Some(3062)));
    assert!(is_nautika(Some(3120)));
    assert!(is_pickles(Some(3063)));
    assert!(is_recoleta(Some(3114)));
    assert!(is_rubuska(Some(3125)));
    assert!(is_tuesday(Some(3098)));
    assert!(is_willow(Some(3104)));
    assert!(!is_kakania(Some(3081)));
    assert!(!is_willow(None));
    assert_eq!(HeroId::Sentinel.model_id(), 3126);
    assert_eq!(HeroId::Sotheby.model_id(), 3009);
    assert_eq!(HeroId::Semmelweis.model_id(), 3088);
}

#[test]
fn sentinel_passive_injection_uses_upgrade() {
    let mut ex_map = HashMap::new();
    assert_eq!(passive_injections(&ex_map), vec![ORPHAN_PASSIVE]);
    ex_map.insert(ORPHAN_PASSIVE, 31260192);
    assert_eq!(passive_injections(&ex_map), vec![31260192]);
}

#[test]
fn ult_gain_counts_bloodtithe_and_cloak() {
    assert_eq!(ult_manual_gain(Some(3088), &[3088, 3120]), 1);
    assert_eq!(ult_manual_gain(Some(3125), &[3088, 3125]), 2);
    assert_eq!(ult_manual_gain(Some(3125), &[]), 1);
    assert_eq!(ult_manual_gain(Some(3080), &[3088]), 0);
    assert_eq!(ult_manual_gain(None, &[3088]), 0);
}

#[test]
fn config_rows_found_by_first_id() {
    let cfg = BattleConfig {
        skill_buff: vec![
            SkillBuffRow { id: 1, type_id: 2, during_time: 0, effect_count: 0, features: vec![] },
            SkillBuffRow { id: 1, type_id: 3, during_time: 0, effect_count: 0, features: vec![] },
        ],
        skill_bufftype: vec![BuffTypeRow { id: 2, include_types: vec![] }],
        buff_act: vec![],
        monster_skill_template: vec![MonsterSkillTemplateRow { id: 5, unique_skill_point: 6 }],
        injury_bank: vec![],
        magic_circle: vec![],
        skill_effect: vec![],
        cloth_level: vec![],
        episode: vec![],
        battle: vec![],
    };
    assert_eq!(find_buff_row(&cfg.skill_buff, 1), Some(0));
    assert_eq!(find_buff_row(&cfg.skill_buff, 4), None);
    assert_eq!(find_type_row(&cfg.skill_bufftype, 2), Some(0));
    assert_eq!(lookup_skill_point(&cfg.monster_skill_template, 5), 6);
    assert_eq!(lookup_skill_point(&cfg.monster_skill_template, 7), 0);
}
