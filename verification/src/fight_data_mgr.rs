//! The managers a battle runs with, and what a new battle is created from.
use vstd::prelude::*;
use crate::buff_mgr::{BuffMgr, BuffMgrView};
use crate::config::MonsterSkillTemplateRow;
use crate::entity_mgr::{EntityMgr, EntityView, sel_required, spec_cache};
use crate::ex_point_mgr::{ExPointMgr, ExPointView};
use crate::fight::{Fight, all_entities, fold_by_uid, sel_ex_max, sel_ex_point, sel_hp, sel_max_hp};
use crate::wave_mgr::WaveMgr;

verus! {

/// The managers of one battle.
#[derive(Debug)]
pub struct Managers {
    pub entity_mgr: EntityMgr,
    pub buff_mgr: BuffMgr,
    pub ex_point_mgr: ExPointMgr,
    pub wave_mgr: WaveMgr,
}

impl Managers {
    /// Managers for a new battle: entities read from the snapshot, no
    /// buffs, no ex point bookkeeping yet.
    pub fn new(fight: &Fight, templates: &Vec<MonsterSkillTemplateRow>) -> (r: Self)
        ensures
            r.entity_mgr@ == (EntityView {
                cache: spec_cache(*fight),
                ex_points: fold_by_uid(all_entities(*fight), Map::empty(), sel_ex_point()),
                ex_max: fold_by_uid(all_entities(*fight), Map::empty(), sel_ex_max()),
                required: fold_by_uid(all_entities(*fight), Map::empty(), sel_required(templates@)),
                hp: fold_by_uid(all_entities(*fight), Map::empty(), sel_hp()),
                max_hp: fold_by_uid(all_entities(*fight), Map::empty(), sel_max_hp()),
                recent_decr: Map::empty(),
            }),
            r.buff_mgr.wf(),
            r.buff_mgr@ == (BuffMgrView {
                active: Map::empty(),
                step_deleted: Seq::empty(),
                teammate_injury: Map::empty(),
                slot_usage: Map::empty(),
            }),
            r.ex_point_mgr@ == (ExPointView {
                ex_points: Map::empty(),
                ex_max: Map::empty(),
                hp: Map::empty(),
                max_hp: Map::empty(),
                recent_decr: Map::empty(),
            }),
    {
        Managers {
            entity_mgr: EntityMgr::new(fight, templates),
            buff_mgr: BuffMgr::new(),
            ex_point_mgr: ExPointMgr::new(),
            wave_mgr: WaveMgr::new(),
        }
    }
}

/// What a battle is created for.
#[derive(Debug, Clone, Copy)]
pub struct BattleContext {
    pub player_id: i64,
    pub chapter_id: i32,
    pub episode_id: i32,
    pub battle_id: i32,
    pub max_ap: i32,
}

} // verus!
