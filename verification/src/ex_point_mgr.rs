//! Per-entity ex points (moxie), their caps, and a mirror of hp.
use std::collections::HashMap;
use vstd::prelude::*;
use crate::fight::{
    AttrInfo, Fight, FightEntityInfo, FightTeamInfo, all_entities, attr_hp_of, collect_all_entities,
    entity_ex_max, fold_by_uid, fold_opt_by_uid, i32_or, lemma_fold_by_uid_step,
    lemma_fold_opt_by_uid_step, sel_attr_max_hp_floored, sel_ex_max, sel_ex_point,
    sel_ex_point_floored, sel_hp, sel_hp_floored, sel_max_hp,
};
use crate::config::BattleConfig;
use crate::manager::Manager;
use crate::table::{all_nonneg, get_or, max_i32, max_of, min_i32, min_of, read_or_zero};

verus! {

/// The tables of an `ExPointMgr`, each keyed by entity uid.
pub ghost struct ExPointView {
    pub ex_points: Map<i64, i32>,
    pub ex_max: Map<i64, i32>,
    pub hp: Map<i64, i32>,
    pub max_hp: Map<i64, i32>,
    pub recent_decr: Map<i64, i32>,
}

/// Ex point and hp bookkeeping keyed by entity uid.
#[derive(Debug)]
pub struct ExPointMgr {
    ex_points: HashMap<i64, i32>,
    ex_max: HashMap<i64, i32>,
    current_hp: HashMap<i64, i32>,
    max_hp: HashMap<i64, i32>,
    recent_decr_ex_point: HashMap<i64, i32>,
}

impl View for ExPointMgr {
    type V = ExPointView;

    closed spec fn view(&self) -> ExPointView {
        ExPointView {
            ex_points: self.ex_points@,
            ex_max: self.ex_max@,
            hp: self.current_hp@,
            max_hp: self.max_hp@,
            recent_decr: self.recent_decr_ex_point@,
        }
    }
}

impl ExPointMgr {
    /// An empty manager.
    pub fn new() -> (r: Self)
        ensures
            r@ == (ExPointView {
                ex_points: Map::empty(),
                ex_max: Map::empty(),
                hp: Map::empty(),
                max_hp: Map::empty(),
                recent_decr: Map::empty(),
            }),
    {
        ExPointMgr {
            ex_points: HashMap::new(),
            ex_max: HashMap::new(),
            current_hp: HashMap::new(),
            max_hp: HashMap::new(),
            recent_decr_ex_point: HashMap::new(),
        }
    }

    /// Seeds ex points, caps, hp and max hp from every entity of the
    /// snapshot that has a uid.
    pub fn init(&mut self, fight: &Fight)
        ensures
            final(self)@ == (ExPointView {
                ex_points: fold_by_uid(all_entities(*fight), old(self)@.ex_points, sel_ex_point()),
                ex_max: fold_by_uid(all_entities(*fight), old(self)@.ex_max, sel_ex_max()),
                hp: fold_by_uid(all_entities(*fight), old(self)@.hp, sel_hp()),
                max_hp: fold_by_uid(all_entities(*fight), old(self)@.max_hp, sel_max_hp()),
                ..old(self)@
            }),
    {
        let es = collect_all_entities(fight);
        let ghost s = all_entities(*fight);
        let mut i: usize = 0;
        while i < es.len()
            invariant
                es@.len() == s.len(),
                forall|j: int| 0 <= j < es@.len() ==> *es@[j] == s[j],
                i <= es@.len(),
                self@ == (ExPointView {
                    ex_points: fold_by_uid(s.take(i as int), old(self)@.ex_points, sel_ex_point()),
                    ex_max: fold_by_uid(s.take(i as int), old(self)@.ex_max, sel_ex_max()),
                    hp: fold_by_uid(s.take(i as int), old(self)@.hp, sel_hp()),
                    max_hp: fold_by_uid(s.take(i as int), old(self)@.max_hp, sel_max_hp()),
                    ..old(self)@
                }),
            decreases es@.len() - i,
        {
            let e = es[i];
            proof {
                lemma_fold_by_uid_step(s, i as int, old(self)@.ex_points, sel_ex_point());
                lemma_fold_by_uid_step(s, i as int, old(self)@.ex_max, sel_ex_max());
                lemma_fold_by_uid_step(s, i as int, old(self)@.hp, sel_hp());
                lemma_fold_by_uid_step(s, i as int, old(self)@.max_hp, sel_max_hp());
            }
            if let Some(uid) = e.uid {
                self.ex_points.insert(uid, i32_or(e.ex_point, 0));
                self.ex_max.insert(uid, entity_ex_max(e));
                let hp = i32_or(e.current_hp, 0);
                self.current_hp.insert(uid, hp);
                self.max_hp.insert(uid, i32_or(attr_hp_of(&e.attr), hp));
            }
            i += 1;
        }
        proof {
            assert(s.take(s.len() as int) =~= s);
        }
    }

    /// Adds `amount` (possibly negative) to the ex points of `uid`,
    /// flooring the result at zero.
    pub fn add_ex_point(&mut self, uid: i64, amount: i32)
        requires
            i32::MIN <= get_or(old(self)@.ex_points, uid, 0) + amount <= i32::MAX,
        ensures
            final(self)@ == (ExPointView {
                ex_points: old(self)@.ex_points.insert(
                    uid,
                    max_i32((get_or(old(self)@.ex_points, uid, 0) + amount) as i32, 0),
                ),
                ..old(self)@
            }),
            all_nonneg(old(self)@.ex_points) ==> all_nonneg(final(self)@.ex_points),
    {
        let v = read_or_zero(&self.ex_points, uid);
        self.ex_points.insert(uid, max_of(v + amount, 0));
    }

    /// Records the most recent ex point decrease of `uid`, floored at zero.
    pub fn set_recent_decr_ex_point(&mut self, uid: i64, amount: i32)
        ensures
            final(self)@ == (ExPointView {
                recent_decr: old(self)@.recent_decr.insert(uid, max_i32(amount, 0)),
                ..old(self)@
            }),
    {
        self.recent_decr_ex_point.insert(uid, max_of(amount, 0));
    }

    /// The most recent ex point decrease of `uid`, `0` when none.
    pub fn get_recent_decr_ex_point(&self, uid: i64) -> (r: i32)
        ensures
            r == get_or(self@.recent_decr, uid, 0),
    {
        read_or_zero(&self.recent_decr_ex_point, uid)
    }

    /// Forgets the most recent ex point decrease of `uid`.
    pub fn clear_recent_decr_ex_point(&mut self, uid: i64)
        ensures
            final(self)@ == (ExPointView { recent_decr: old(self)@.recent_decr.remove(uid), ..old(self)@ }),
    {
        self.recent_decr_ex_point.remove(&uid);
    }

    /// Raises (or lowers) the ex point cap of `uid` by `amount`.
    pub fn add_ex_max(&mut self, uid: i64, amount: i32)
        requires
            i32::MIN <= get_or(old(self)@.ex_max, uid, 0) + amount <= i32::MAX,
        ensures
            final(self)@ == (ExPointView {
                ex_max: old(self)@.ex_max.insert(uid, (get_or(old(self)@.ex_max, uid, 0) + amount) as i32),
                ..old(self)@
            }),
    {
        let v = read_or_zero(&self.ex_max, uid);
        self.ex_max.insert(uid, v + amount);
    }

    /// The ex point cap of `uid`, `0` when unknown.
    pub fn get_ex_max(&self, uid: i64) -> (r: i32)
        ensures
            r == get_or(self@.ex_max, uid, 0),
    {
        read_or_zero(&self.ex_max, uid)
    }

    /// Spends `amount` ex points of `uid` when it has at least that many,
    /// and returns whether it did. An unknown uid is recorded with `0`.
    pub fn consume_ex_point(&mut self, uid: i64, amount: i32) -> (r: bool)
        requires
            i32::MIN <= get_or(old(self)@.ex_points, uid, 0) - amount <= i32::MAX,
        ensures
            r == (get_or(old(self)@.ex_points, uid, 0) >= amount),
            final(self)@ == (ExPointView {
                ex_points: old(self)@.ex_points.insert(
                    uid,
                    if r {
                        (get_or(old(self)@.ex_points, uid, 0) - amount) as i32
                    } else {
                        get_or(old(self)@.ex_points, uid, 0)
                    },
                ),
                ..old(self)@
            }),
            all_nonneg(old(self)@.ex_points) ==> all_nonneg(final(self)@.ex_points),
    {
        let v = read_or_zero(&self.ex_points, uid);
        if v >= amount {
            self.ex_points.insert(uid, v - amount);
            true
        } else {
            self.ex_points.insert(uid, v);
            false
        }
    }

    /// Sets the ex points of `uid`, floored at zero.
    pub fn set_ex_point(&mut self, uid: i64, value: i32)
        ensures
            final(self)@ == (ExPointView { ex_points: old(self)@.ex_points.insert(uid, max_i32(value, 0)), ..old(self)@ }),
            all_nonneg(old(self)@.ex_points) ==> all_nonneg(final(self)@.ex_points),
    {
        self.ex_points.insert(uid, max_of(value, 0));
    }

    /// The ex points of `uid`, `0` when unknown.
    pub fn get_ex_point(&self, uid: i64) -> (r: i32)
        ensures
            r == get_or(self@.ex_points, uid, 0),
    {
        read_or_zero(&self.ex_points, uid)
    }

    /// Sets the current hp of `uid`, floored at zero.
    pub fn set_hp(&mut self, uid: i64, hp: i32)
        ensures
            final(self)@ == (ExPointView { hp: old(self)@.hp.insert(uid, max_i32(hp, 0)), ..old(self)@ }),
            all_nonneg(old(self)@.hp) ==> all_nonneg(final(self)@.hp),
    {
        self.current_hp.insert(uid, max_of(hp, 0));
    }

    /// The current hp of `uid`, `0` when unknown.
    pub fn get_hp(&self, uid: i64) -> (r: i32)
        ensures
            r == get_or(self@.hp, uid, 0),
    {
        read_or_zero(&self.current_hp, uid)
    }

    /// Sets the max hp of `uid`, floored at zero.
    pub fn set_max_hp(&mut self, uid: i64, hp: i32)
        ensures
            final(self)@ == (ExPointView { max_hp: old(self)@.max_hp.insert(uid, max_i32(hp, 0)), ..old(self)@ }),
    {
        self.max_hp.insert(uid, max_of(hp, 0));
    }

    /// The max hp of `uid`, `0` when unknown.
    pub fn get_max_hp(&self, uid: i64) -> (r: i32)
        ensures
            r == get_or(self@.max_hp, uid, 0),
    {
        read_or_zero(&self.max_hp, uid)
    }

    /// Lowers the current hp of `uid` by `amount`, never below zero.
    pub fn apply_damage(&mut self, uid: i64, amount: i32)
        requires
            i32::MIN <= get_or(old(self)@.hp, uid, 0) - amount <= i32::MAX,
        ensures
            final(self)@ == (ExPointView {
                hp: old(self)@.hp.insert(uid, max_i32((get_or(old(self)@.hp, uid, 0) - amount) as i32, 0)),
                ..old(self)@
            }),
            all_nonneg(old(self)@.hp) ==> all_nonneg(final(self)@.hp),
    {
        let hp = read_or_zero(&self.current_hp, uid);
        self.current_hp.insert(uid, max_of(hp - amount, 0));
    }

    /// Raises the current hp of `uid` by `amount`, never above `max_hp`.
    pub fn apply_heal(&mut self, uid: i64, amount: i32, max_hp: i32)
        requires
            i32::MIN <= get_or(old(self)@.hp, uid, 0) + amount <= i32::MAX,
        ensures
            final(self)@ == (ExPointView {
                hp: old(self)@.hp.insert(uid, min_i32((get_or(old(self)@.hp, uid, 0) + amount) as i32, max_hp)),
                ..old(self)@
            }),
            all_nonneg(old(self)@.hp) && amount >= 0 && max_hp >= 0 ==> all_nonneg(final(self)@.hp),
    {
        let hp = read_or_zero(&self.current_hp, uid);
        self.current_hp.insert(uid, min_of(hp + amount, max_hp));
    }
}

impl Manager for ExPointMgr {
    /// Ex points persist across rounds; only the recent decreases reset.
    fn on_round_end(&mut self, _cfg: &BattleConfig)
        ensures
            final(self)@ == (ExPointView { recent_decr: Map::empty(), ..old(self)@ }),
    {
        self.recent_decr_ex_point.clear();
    }

    /// Forgets ex points, current hp and recent decreases.
    fn on_battle_end(&mut self)
        ensures
            final(self)@ == (ExPointView {
                ex_points: Map::empty(),
                hp: Map::empty(),
                recent_decr: Map::empty(),
                ..old(self)@
            }),
    {
        self.ex_points.clear();
        self.current_hp.clear();
        self.recent_decr_ex_point.clear();
    }
}

/// Copies ex points, current hp and (where present) attribute max hp of
/// every entity of the snapshot into the manager, each floored at zero.
pub fn sync_from_fight(fight: &Fight, mgr: &mut ExPointMgr)
    ensures
        final(mgr)@ == (ExPointView {
            ex_points: fold_by_uid(all_entities(*fight), old(mgr)@.ex_points, sel_ex_point_floored()),
            hp: fold_by_uid(all_entities(*fight), old(mgr)@.hp, sel_hp_floored()),
            max_hp: fold_opt_by_uid(all_entities(*fight), old(mgr)@.max_hp, sel_attr_max_hp_floored()),
            ..old(mgr)@
        }),
{
    let es = collect_all_entities(fight);
    let ghost s = all_entities(*fight);
    let mut i: usize = 0;
    while i < es.len()
        invariant
            es@.len() == s.len(),
            forall|j: int| 0 <= j < es@.len() ==> *es@[j] == s[j],
            i <= es@.len(),
            mgr@ == (ExPointView {
                ex_points: fold_by_uid(s.take(i as int), old(mgr)@.ex_points, sel_ex_point_floored()),
                hp: fold_by_uid(s.take(i as int), old(mgr)@.hp, sel_hp_floored()),
                max_hp: fold_opt_by_uid(s.take(i as int), old(mgr)@.max_hp, sel_attr_max_hp_floored()),
                ..old(mgr)@
            }),
        decreases es@.len() - i,
    {
        let e = es[i];
        proof {
            lemma_fold_by_uid_step(s, i as int, old(mgr)@.ex_points, sel_ex_point_floored());
            lemma_fold_by_uid_step(s, i as int, old(mgr)@.hp, sel_hp_floored());
            lemma_fold_opt_by_uid_step(s, i as int, old(mgr)@.max_hp, sel_attr_max_hp_floored());
        }
        if let Some(uid) = e.uid {
            mgr.set_ex_point(uid, i32_or(e.ex_point, 0));
            mgr.set_hp(uid, i32_or(e.current_hp, 0));
            if let Some(max) = attr_hp_of(&e.attr) {
                mgr.set_max_hp(uid, max);
            }
        }
        i += 1;
    }
    proof {
        assert(s.take(s.len() as int) =~= s);
    }
}

/// An entity after `sync_to_fight`: ex points and current hp taken from
/// the manager; when the manager knows a positive max hp, it replaces the
/// hp of the attribute blocks that are present.
pub open spec fn synced_entity(e: FightEntityInfo, mgr: ExPointView) -> FightEntityInfo {
    match e.uid {
        None => e,
        Some(uid) => {
            let max_hp = get_or(mgr.max_hp, uid, 0);
            FightEntityInfo {
                ex_point: Some(get_or(mgr.ex_points, uid, 0)),
                current_hp: Some(get_or(mgr.hp, uid, 0)),
                attr: if max_hp > 0 && e.attr.is_some() { Some(AttrInfo { hp: Some(max_hp) }) } else { e.attr },
                base_attr: if max_hp > 0 && e.base_attr.is_some() {
                    Some(AttrInfo { hp: Some(max_hp) })
                } else {
                    e.base_attr
                },
                ..e
            }
        },
    }
}

/// Every entity of `new` is the synced version of the entity at the same
/// place in `old`.
pub open spec fn entities_synced(old: Seq<FightEntityInfo>, new: Seq<FightEntityInfo>, mgr: ExPointView) -> bool {
    &&& new.len() == old.len()
    &&& forall|i: int| 0 <= i < old.len() ==> #[trigger] new[i] == synced_entity(old[i], mgr)
}

/// A team after `sync_to_fight`: both entity lists synced in place.
pub open spec fn team_synced(old: Option<FightTeamInfo>, new: Option<FightTeamInfo>, mgr: ExPointView) -> bool {
    match (old, new) {
        (None, None) => true,
        (Some(o), Some(n)) => entities_synced(o.entitys@, n.entitys@, mgr) && entities_synced(
            o.sub_entitys@,
            n.sub_entitys@,
            mgr,
        ) && n.cloth_id == o.cloth_id && n.power == o.power,
        _ => false,
    }
}

fn sync_entity(e: &mut FightEntityInfo, mgr: &ExPointMgr)
    ensures
        *final(e) == synced_entity(*old(e), mgr@),
{
    if let Some(uid) = e.uid {
        e.ex_point = Some(mgr.get_ex_point(uid));
        e.current_hp = Some(mgr.get_hp(uid));
        let max_hp = mgr.get_max_hp(uid);
        if max_hp > 0 {
            if e.attr.is_some() {
                e.attr = Some(AttrInfo { hp: Some(max_hp) });
            }
            if e.base_attr.is_some() {
                e.base_attr = Some(AttrInfo { hp: Some(max_hp) });
            }
        }
    }
}

fn sync_entity_list(v: &mut Vec<FightEntityInfo>, mgr: &ExPointMgr)
    ensures
        entities_synced(old(v)@, final(v)@, mgr@),
{
    let mut i: usize = 0;
    while i < v.len()
        invariant
            v@.len() == old(v)@.len(),
            i <= v@.len(),
            forall|j: int| 0 <= j < i ==> #[trigger] v@[j] == synced_entity(old(v)@[j], mgr@),
            forall|j: int| i <= j < v@.len() ==> #[trigger] v@[j] == old(v)@[j],
        decreases v@.len() - i,
    {
        sync_entity(&mut v[i], mgr);
        i += 1;
    }
}

fn sync_team(t: &mut Option<FightTeamInfo>, mgr: &ExPointMgr)
    ensures
        team_synced(*old(t), *final(t), mgr@),
{
    match t {
        Some(team) => {
            sync_entity_list(&mut team.entitys, mgr);
            sync_entity_list(&mut team.sub_entitys, mgr);
        },
        None => {},
    }
}

/// Writes the manager's ex points and hp back into every entity of the
/// snapshot that has a uid; a known positive max hp also replaces the hp
/// of the entity's attribute blocks.
pub fn sync_to_fight(fight: &mut Fight, mgr: &ExPointMgr)
    ensures
        team_synced(old(fight).attacker, final(fight).attacker, mgr@),
        team_synced(old(fight).defender, final(fight).defender, mgr@),
        final(fight).battle_id == old(fight).battle_id,
        final(fight).episode_id == old(fight).episode_id,
        final(fight).cur_wave == old(fight).cur_wave,
{
    sync_team(&mut fight.attacker, mgr);
    sync_team(&mut fight.defender, mgr);
}

} // verus!
