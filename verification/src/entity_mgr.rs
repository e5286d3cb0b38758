//! Entity bookkeeping for a battle: where each uid sits in the
//! snapshot, and per-entity ex points, caps, required points and hp.
use std::collections::{HashMap, HashSet};
use vstd::prelude::*;
use crate::config::{BattleConfig, MonsterSkillTemplateRow, lookup_skill_point, template_skill_point};
use crate::fight::{
    AttrInfo, Fight, FightEntityInfo, FightTeamInfo, all_entities, attr_hp_of, collect_all_entities,
    entity_ex_max, fold_by_uid, fold_opt_by_uid, i32_or, lemma_fold_by_uid_step,
    lemma_fold_opt_by_uid_step, opt_or, same_entity, sel_attr_max_hp_floored, sel_ex_max,
    sel_ex_point, sel_ex_point_floored, sel_hp, sel_hp_floored, sel_max_hp,
};
use crate::manager::Manager;
use crate::table::{all_nonneg, get_or, max_i32, max_of, min_i32, min_of, read_or_zero};

verus! {

/// Where an entity sits in the snapshot: its side and its index among
/// the fielded entities of that side.
#[derive(Debug, Clone, Copy, PartialEq, Eq)]
pub struct EntityLocation {
    pub is_attacker: bool,
    pub index: usize,
}

/// The tables of an `EntityMgr`, each keyed by entity uid.
pub ghost struct EntityView {
    pub cache: Map<i64, EntityLocation>,
    pub ex_points: Map<i64, i32>,
    pub ex_max: Map<i64, i32>,
    pub required: Map<i64, i32>,
    pub hp: Map<i64, i32>,
    pub max_hp: Map<i64, i32>,
    pub recent_decr: Map<i64, i32>,
}

/// Entity bookkeeping keyed by uid.
#[derive(Debug)]
pub struct EntityMgr {
    entity_cache: HashMap<i64, EntityLocation>,
    ex_points: HashMap<i64, i32>,
    ex_max: HashMap<i64, i32>,
    ex_point_required: HashMap<i64, i32>,
    current_hp: HashMap<i64, i32>,
    max_hp: HashMap<i64, i32>,
    recent_decr_ex_point: HashMap<i64, i32>,
}

impl View for EntityMgr {
    type V = EntityView;

    closed spec fn view(&self) -> EntityView {
        EntityView {
            cache: self.entity_cache@,
            ex_points: self.ex_points@,
            ex_max: self.ex_max@,
            required: self.ex_point_required@,
            hp: self.current_hp@,
            max_hp: self.max_hp@,
            recent_decr: self.recent_decr_ex_point@,
        }
    }
}

/// The fielded entities of an optional team.
pub open spec fn fielded(t: Option<FightTeamInfo>) -> Seq<FightEntityInfo> {
    match t {
        Some(team) => team.entitys@,
        None => Seq::empty(),
    }
}

/// Locations of the fielded entities of one side stored over `m`; later
/// entities win on a repeated uid.
pub open spec fn cache_side(es: Seq<FightEntityInfo>, is_attacker: bool, m: Map<i64, EntityLocation>) -> Map<
    i64,
    EntityLocation,
>
    decreases es.len(),
{
    if es.len() == 0 {
        m
    } else {
        let prev = cache_side(es.drop_last(), is_attacker, m);
        match es.last().uid {
            Some(u) => prev.insert(u, EntityLocation { is_attacker, index: (es.len() - 1) as usize }),
            None => prev,
        }
    }
}

/// The location cache of a snapshot: attacker fielded entities, then
/// defender fielded entities (substitutes are not located).
pub open spec fn spec_cache(f: Fight) -> Map<i64, EntityLocation> {
    cache_side(fielded(f.defender), false, cache_side(fielded(f.attacker), true, Map::empty()))
}

/// The unique skill points an entity needs, from the template of its model.
pub open spec fn sel_required(rows: Seq<MonsterSkillTemplateRow>) -> spec_fn(FightEntityInfo) -> i32 {
    |e: FightEntityInfo|
        match e.model_id {
            Some(mid) => template_skill_point(rows, mid),
            None => 0i32,
        }
}

/// The uids located on one side whose hp is positive.
pub open spec fn alive_on_side(v: EntityView, attacker: bool) -> Set<i64> {
    Set::new(|u: i64| v.cache.contains_key(u) && v.cache[u].is_attacker == attacker && get_or(v.hp, u, 0) > 0)
}

/// The first fielded slot holding a dead entity at a positive position.
pub open spec fn is_dead_slot(e: FightEntityInfo) -> bool {
    e.uid.is_some() && opt_or(e.current_hp, 0) <= 0 && opt_or(e.position, 0) > 0
}

/// The first index whose entity `is_dead_slot`.
pub open spec fn first_dead_slot(es: Seq<FightEntityInfo>, i: int) -> bool {
    &&& 0 <= i < es.len()
    &&& is_dead_slot(es[i])
    &&& forall|j: int| 0 <= j < i ==> !is_dead_slot(#[trigger] es[j])
}

proof fn lemma_cache_side_step(es: Seq<FightEntityInfo>, i: int, is_attacker: bool, m: Map<i64, EntityLocation>)
    requires
        0 <= i < es.len(),
    ensures
        cache_side(es.take(i + 1), is_attacker, m) == match es[i].uid {
            Some(u) => cache_side(es.take(i), is_attacker, m).insert(
                u,
                EntityLocation { is_attacker, index: i as usize },
            ),
            None => cache_side(es.take(i), is_attacker, m),
        },
{
    assert(es.take(i + 1).drop_last() =~= es.take(i));
    assert(es.take(i + 1).last() == es[i]);
}

fn cache_entities(cache: &mut HashMap<i64, EntityLocation>, es: &Vec<FightEntityInfo>, is_attacker: bool)
    ensures
        final(cache)@ == cache_side(es@, is_attacker, old(cache)@),
{
    let mut i: usize = 0;
    while i < es.len()
        invariant
            i <= es@.len(),
            cache@ == cache_side(es@.take(i as int), is_attacker, old(cache)@),
        decreases es@.len() - i,
    {
        proof { lemma_cache_side_step(es@, i as int, is_attacker, old(cache)@); }
        if let Some(uid) = es[i].uid {
            cache.insert(uid, EntityLocation { is_attacker, index: i });
        }
        i += 1;
    }
    proof { assert(es@.take(es@.len() as int) =~= es@); }
}

fn collect_alive(
    cache: &HashMap<i64, EntityLocation>,
    hp: &HashMap<i64, i32>,
    attacker: bool,
) -> (r: HashSet<i64>)
    ensures
        r@ == Set::new(|u: i64| cache@.contains_key(u) && cache@[u].is_attacker == attacker && get_or(hp@, u, 0) > 0),
{
    let mut out: HashSet<i64> = HashSet::new();
    let ghost target = Set::new(
        |u: i64| cache@.contains_key(u) && cache@[u].is_attacker == attacker && get_or(hp@, u, 0) > 0,
    );
    for item in it: cache.iter()
        invariant
            target == Set::new(|u: i64| cache@.contains_key(u) && cache@[u].is_attacker == attacker && get_or(hp@, u, 0) > 0),
            forall|k: i64| #[trigger] cache@.contains_key(k) ==> exists|i: int| 0 <= i < it.seq().len() && *it.seq()[i].0 == k,
            forall|i: int| 0 <= i < it.seq().len() ==> cache@.contains_key(*it.seq()[i].0) && cache@[*it.seq()[i].0] == *it.seq()[i].1,
            forall|u: i64| #[trigger] out@.contains(u) <==> (target.contains(u) && exists|i: int| 0 <= i < it.index() && *it.seq()[i].0 == u),
    {
        let (uid, loc) = item;
        let alive = match hp.get(uid) {
            Some(h) => *h > 0,
            None => false,
        };
        assert(alive == (get_or(hp@, *uid, 0) > 0));
        proof {
            let ghost k = it.index() as int;
            assert(0 <= k < it.seq().len());
            assert(*it.seq()[k].0 == *uid && *it.seq()[k].1 == *loc);
            assert(cache@.contains_key(*uid) && cache@[*uid] == *loc);
            assert(target.contains(*uid) <==> (loc.is_attacker == attacker && alive));
        }
        if loc.is_attacker == attacker && alive {
            out.insert(*uid);
        }
        proof {
            let ghost k = it.index() as int;
            assert forall|u: i64| #[trigger] out@.contains(u) <==> (target.contains(u) && exists|i: int| 0 <= i <= k && *it.seq()[i].0 == u) by {
                if u == *uid {
                    assert(*it.seq()[k].0 == u);
                }
            }
        }
    }
    assert(out@ =~= target);
    out
}

impl EntityMgr {
    /// A manager built from a snapshot: location cache, then tables.
    pub fn new(fight: &Fight, templates: &Vec<MonsterSkillTemplateRow>) -> (r: Self)
        ensures
            r@ == (EntityView {
                cache: spec_cache(*fight),
                ex_points: fold_by_uid(all_entities(*fight), Map::empty(), sel_ex_point()),
                ex_max: fold_by_uid(all_entities(*fight), Map::empty(), sel_ex_max()),
                required: fold_by_uid(all_entities(*fight), Map::empty(), sel_required(templates@)),
                hp: fold_by_uid(all_entities(*fight), Map::empty(), sel_hp()),
                max_hp: fold_by_uid(all_entities(*fight), Map::empty(), sel_max_hp()),
                recent_decr: Map::empty(),
            }),
    {
        let mut mgr = EntityMgr {
            entity_cache: HashMap::new(),
            ex_points: HashMap::new(),
            ex_max: HashMap::new(),
            ex_point_required: HashMap::new(),
            current_hp: HashMap::new(),
            max_hp: HashMap::new(),
            recent_decr_ex_point: HashMap::new(),
        };
        mgr.rebuild_cache(fight);
        mgr.init(fight, templates);
        mgr
    }

    /// Rebuilds the location cache from the fielded entities of both sides.
    pub fn rebuild_cache(&mut self, fight: &Fight)
        ensures
            final(self)@ == (EntityView { cache: spec_cache(*fight), ..old(self)@ }),
    {
        self.entity_cache.clear();
        if let Some(attacker) = &fight.attacker {
            cache_entities(&mut self.entity_cache, &attacker.entitys, true);
        }
        if let Some(defender) = &fight.defender {
            cache_entities(&mut self.entity_cache, &defender.entitys, false);
        }
    }

    /// Where `entity_id` sits, when it is located.
    pub fn get_location(&self, entity_id: i64) -> (r: Option<EntityLocation>)
        ensures
            r == (if self@.cache.contains_key(entity_id) { Some(self@.cache[entity_id]) } else { None }),
    {
        match self.entity_cache.get(&entity_id) {
            Some(loc) => Some(*loc),
            None => None,
        }
    }

    /// The located attacker-side uids with positive hp.
    pub fn alive_hero_uids(&self) -> (r: HashSet<i64>)
        ensures
            r@ == alive_on_side(self@, true),
    {
        let r = collect_alive(&self.entity_cache, &self.current_hp, true);
        proof { assert(r@ =~= alive_on_side(self@, true)); }
        r
    }

    /// The located defender-side uids with positive hp.
    pub fn alive_enemy_uids(&self) -> (r: HashSet<i64>)
        ensures
            r@ == alive_on_side(self@, false),
    {
        let r = collect_alive(&self.entity_cache, &self.current_hp, false);
        proof { assert(r@ =~= alive_on_side(self@, false)); }
        r
    }

    /// Seeds ex points, caps, required points, hp and max hp from every
    /// entity of the snapshot that has a uid.
    pub fn init(&mut self, fight: &Fight, templates: &Vec<MonsterSkillTemplateRow>)
        ensures
            final(self)@ == (EntityView {
                ex_points: fold_by_uid(all_entities(*fight), old(self)@.ex_points, sel_ex_point()),
                ex_max: fold_by_uid(all_entities(*fight), old(self)@.ex_max, sel_ex_max()),
                required: fold_by_uid(all_entities(*fight), old(self)@.required, sel_required(templates@)),
                hp: fold_by_uid(all_entities(*fight), old(self)@.hp, sel_hp()),
                max_hp: fold_by_uid(all_entities(*fight), old(self)@.max_hp, sel_max_hp()),
                ..old(self)@
            }),
    {
        let es = collect_all_entities(fight);
        let ghost s = all_entities(*fight);
        let mut i: usize = 0;
        while i < es.len()
            invariant
                es@.len() == s.len(),
                forall|j: int| 0 <= j < es@.len() ==> *es@[j] == s[j],
                i <= es@.len(),
                self@ == (EntityView {
                    ex_points: fold_by_uid(s.take(i as int), old(self)@.ex_points, sel_ex_point()),
                    ex_max: fold_by_uid(s.take(i as int), old(self)@.ex_max, sel_ex_max()),
                    required: fold_by_uid(s.take(i as int), old(self)@.required, sel_required(templates@)),
                    hp: fold_by_uid(s.take(i as int), old(self)@.hp, sel_hp()),
                    max_hp: fold_by_uid(s.take(i as int), old(self)@.max_hp, sel_max_hp()),
                    ..old(self)@
                }),
            decreases es@.len() - i,
        {
            let e = es[i];
            proof {
                lemma_fold_by_uid_step(s, i as int, old(self)@.ex_points, sel_ex_point());
                lemma_fold_by_uid_step(s, i as int, old(self)@.ex_max, sel_ex_max());
                lemma_fold_by_uid_step(s, i as int, old(self)@.required, sel_required(templates@));
                lemma_fold_by_uid_step(s, i as int, old(self)@.hp, sel_hp());
                lemma_fold_by_uid_step(s, i as int, old(self)@.max_hp, sel_max_hp());
            }
            if let Some(uid) = e.uid {
                self.ex_points.insert(uid, i32_or(e.ex_point, 0));
                self.ex_max.insert(uid, entity_ex_max(e));
                let required = match e.model_id {
                    Some(mid) => lookup_skill_point(templates, mid),
                    None => 0,
                };
                self.ex_point_required.insert(uid, required);
                let hp = i32_or(e.current_hp, 0);
                self.current_hp.insert(uid, hp);
                self.max_hp.insert(uid, i32_or(attr_hp_of(&e.attr), hp));
            }
            i += 1;
        }
        proof {
            assert(s.take(s.len() as int) =~= s);
        }
    }

    /// The unique skill points `uid` needs, `0` when unknown.
    pub fn get_ex_point_required(&self, uid: i64) -> (r: i32)
        ensures
            r == get_or(self@.required, uid, 0),
    {
        read_or_zero(&self.ex_point_required, uid)
    }

    /// Adds `amount` (possibly negative) to the ex points of `uid`,
    /// flooring the result at zero.
    pub fn add_ex_point(&mut self, uid: i64, amount: i32)
        requires
            i32::MIN <= get_or(old(self)@.ex_points, uid, 0) + amount <= i32::MAX,
        ensures
            final(self)@ == (EntityView {
                ex_points: old(self)@.ex_points.insert(
                    uid,
                    max_i32((get_or(old(self)@.ex_points, uid, 0) + amount) as i32, 0),
                ),
                ..old(self)@
            }),
            all_nonneg(old(self)@.ex_points) ==> all_nonneg(final(self)@.ex_points),
    {
        let v = read_or_zero(&self.ex_points, uid);
        self.ex_points.insert(uid, max_of(v + amount, 0));
    }

    /// Records the most recent ex point decrease of `uid`, floored at zero.
    pub fn set_recent_decr_ex_point(&mut self, uid: i64, amount: i32)
        ensures
            final(self)@ == (EntityView {
                recent_decr: old(self)@.recent_decr.insert(uid, max_i32(amount, 0)),
                ..old(self)@
            }),
    {
        self.recent_decr_ex_point.insert(uid, max_of(amount, 0));
    }

    /// The most recent ex point decrease of `uid`, `0` when none.
    pub fn get_recent_decr_ex_point(&self, uid: i64) -> (r: i32)
        ensures
            r == get_or(self@.recent_decr, uid, 0),
    {
        read_or_zero(&self.recent_decr_ex_point, uid)
    }

    /// Forgets the most recent ex point decrease of `uid`.
    pub fn clear_recent_decr_ex_point(&mut self, uid: i64)
        ensures
            final(self)@ == (EntityView { recent_decr: old(self)@.recent_decr.remove(uid), ..old(self)@ }),
    {
        self.recent_decr_ex_point.remove(&uid);
    }

    /// Raises (or lowers) the ex point cap of `uid` by `amount`.
    pub fn add_ex_max(&mut self, uid: i64, amount: i32)
        requires
            i32::MIN <= get_or(old(self)@.ex_max, uid, 0) + amount <= i32::MAX,
        ensures
            final(self)@ == (EntityView {
                ex_max: old(self)@.ex_max.insert(uid, (get_or(old(self)@.ex_max, uid, 0) + amount) as i32),
                ..old(self)@
            }),
    {
        let v = read_or_zero(&self.ex_max, uid);
        self.ex_max.insert(uid, v + amount);
    }

    /// The ex point cap of `uid`, `0` when unknown.
    pub fn get_ex_max(&self, uid: i64) -> (r: i32)
        ensures
            r == get_or(self@.ex_max, uid, 0),
    {
        read_or_zero(&self.ex_max, uid)
    }

    /// Spends `amount` ex points of `uid` when it has at least that many,
    /// and returns whether it did. An unknown uid is recorded with `0`.
    pub fn consume_ex_point(&mut self, uid: i64, amount: i32) -> (r: bool)
        requires
            i32::MIN <= get_or(old(self)@.ex_points, uid, 0) - amount <= i32::MAX,
        ensures
            r == (get_or(old(self)@.ex_points, uid, 0) >= amount),
            final(self)@ == (EntityView {
                ex_points: old(self)@.ex_points.insert(
                    uid,
                    if r {
                        (get_or(old(self)@.ex_points, uid, 0) - amount) as i32
                    } else {
                        get_or(old(self)@.ex_points, uid, 0)
                    },
                ),
                ..old(self)@
            }),
            all_nonneg(old(self)@.ex_points) ==> all_nonneg(final(self)@.ex_points),
    {
        let v = read_or_zero(&self.ex_points, uid);
        if v >= amount {
            self.ex_points.insert(uid, v - amount);
            true
        } else {
            self.ex_points.insert(uid, v);
            false
        }
    }

    /// Sets the ex points of `uid`, floored at zero.
    pub fn set_ex_point(&mut self, uid: i64, value: i32)
        ensures
            final(self)@ == (EntityView { ex_points: old(self)@.ex_points.insert(uid, max_i32(value, 0)), ..old(self)@ }),
            all_nonneg(old(self)@.ex_points) ==> all_nonneg(final(self)@.ex_points),
    {
        self.ex_points.insert(uid, max_of(value, 0));
    }

    /// The ex points of `uid`, `0` when unknown.
    pub fn get_ex_point(&self, uid: i64) -> (r: i32)
        ensures
            r == get_or(self@.ex_points, uid, 0),
    {
        read_or_zero(&self.ex_points, uid)
    }

    /// Sets the current hp of `uid`, floored at zero.
    pub fn set_hp(&mut self, uid: i64, hp: i32)
        ensures
            final(self)@ == (EntityView { hp: old(self)@.hp.insert(uid, max_i32(hp, 0)), ..old(self)@ }),
            all_nonneg(old(self)@.hp) ==> all_nonneg(final(self)@.hp),
    {
        self.current_hp.insert(uid, max_of(hp, 0));
    }

    /// The current hp of `uid`, `0` when unknown.
    pub fn get_hp(&self, uid: i64) -> (r: i32)
        ensures
            r == get_or(self@.hp, uid, 0),
    {
        read_or_zero(&self.current_hp, uid)
    }

    /// Sets the max hp of `uid`, floored at zero.
    pub fn set_max_hp(&mut self, uid: i64, hp: i32)
        ensures
            final(self)@ == (EntityView { max_hp: old(self)@.max_hp.insert(uid, max_i32(hp, 0)), ..old(self)@ }),
    {
        self.max_hp.insert(uid, max_of(hp, 0));
    }

    /// The max hp of `uid`, `0` when unknown.
    pub fn get_max_hp(&self, uid: i64) -> (r: i32)
        ensures
            r == get_or(self@.max_hp, uid, 0),
    {
        read_or_zero(&self.max_hp, uid)
    }

    /// Lowers the current hp of `uid` by `amount`, never below zero.
    pub fn apply_damage(&mut self, uid: i64, amount: i32)
        requires
            i32::MIN <= get_or(old(self)@.hp, uid, 0) - amount <= i32::MAX,
        ensures
            final(self)@ == (EntityView {
                hp: old(self)@.hp.insert(uid, max_i32((get_or(old(self)@.hp, uid, 0) - amount) as i32, 0)),
                ..old(self)@
            }),
            all_nonneg(old(self)@.hp) ==> all_nonneg(final(self)@.hp),
    {
        let hp = read_or_zero(&self.current_hp, uid);
        self.current_hp.insert(uid, max_of(hp - amount, 0));
    }

    /// Raises the current hp of `uid` by `amount`, never above `max_hp`.
    pub fn apply_heal(&mut self, uid: i64, amount: i32, max_hp: i32)
        requires
            i32::MIN <= get_or(old(self)@.hp, uid, 0) + amount <= i32::MAX,
        ensures
            final(self)@ == (EntityView {
                hp: old(self)@.hp.insert(uid, min_i32((get_or(old(self)@.hp, uid, 0) + amount) as i32, max_hp)),
                ..old(self)@
            }),
            all_nonneg(old(self)@.hp) && amount >= 0 && max_hp >= 0 ==> all_nonneg(final(self)@.hp),
    {
        let hp = read_or_zero(&self.current_hp, uid);
        self.current_hp.insert(uid, min_of(hp + amount, max_hp));
    }
}

impl Manager for EntityMgr {
    /// Recent ex point decreases reset at round end.
    fn on_round_end(&mut self, _cfg: &BattleConfig)
        ensures
            final(self)@ == (EntityView { recent_decr: Map::empty(), ..old(self)@ }),
    {
        self.recent_decr_ex_point.clear();
    }

    /// Forgets ex points, current hp and recent decreases.
    fn on_battle_end(&mut self)
        ensures
            final(self)@ == (EntityView {
                ex_points: Map::empty(),
                hp: Map::empty(),
                recent_decr: Map::empty(),
                ..old(self)@
            }),
    {
        self.ex_points.clear();
        self.current_hp.clear();
        self.recent_decr_ex_point.clear();
    }
}

/// Copies ex points, current hp and (where present) attribute max hp of
/// every entity of the snapshot into the manager, each floored at zero.
pub fn sync_from_fight(fight: &Fight, mgr: &mut EntityMgr)
    ensures
        final(mgr)@ == (EntityView {
            ex_points: fold_by_uid(all_entities(*fight), old(mgr)@.ex_points, sel_ex_point_floored()),
            hp: fold_by_uid(all_entities(*fight), old(mgr)@.hp, sel_hp_floored()),
            max_hp: fold_opt_by_uid(all_entities(*fight), old(mgr)@.max_hp, sel_attr_max_hp_floored()),
            ..old(mgr)@
        }),
{
    let es = collect_all_entities(fight);
    let ghost s = all_entities(*fight);
    let mut i: usize = 0;
    while i < es.len()
        invariant
            es@.len() == s.len(),
            forall|j: int| 0 <= j < es@.len() ==> *es@[j] == s[j],
            i <= es@.len(),
            mgr@ == (EntityView {
                ex_points: fold_by_uid(s.take(i as int), old(mgr)@.ex_points, sel_ex_point_floored()),
                hp: fold_by_uid(s.take(i as int), old(mgr)@.hp, sel_hp_floored()),
                max_hp: fold_opt_by_uid(s.take(i as int), old(mgr)@.max_hp, sel_attr_max_hp_floored()),
                ..old(mgr)@
            }),
        decreases es@.len() - i,
    {
        let e = es[i];
        proof {
            lemma_fold_by_uid_step(s, i as int, old(mgr)@.ex_points, sel_ex_point_floored());
            lemma_fold_by_uid_step(s, i as int, old(mgr)@.hp, sel_hp_floored());
            lemma_fold_opt_by_uid_step(s, i as int, old(mgr)@.max_hp, sel_attr_max_hp_floored());
        }
        if let Some(uid) = e.uid {
            mgr.set_ex_point(uid, i32_or(e.ex_point, 0));
            mgr.set_hp(uid, i32_or(e.current_hp, 0));
            if let Some(max) = attr_hp_of(&e.attr) {
                mgr.set_max_hp(uid, max);
            }
        }
        i += 1;
    }
    proof {
        assert(s.take(s.len() as int) =~= s);
    }
}

/// An entity after `sync_to_fight`: ex points and current hp taken from
/// the manager; when the manager knows a positive max hp, it replaces the
/// hp of the attribute blocks that are present.
pub open spec fn synced_entity(e: FightEntityInfo, mgr: EntityView) -> FightEntityInfo {
    match e.uid {
        None => e,
        Some(uid) => {
            let max_hp = get_or(mgr.max_hp, uid, 0);
            FightEntityInfo {
                ex_point: Some(get_or(mgr.ex_points, uid, 0)),
                current_hp: Some(get_or(mgr.hp, uid, 0)),
                attr: if max_hp > 0 && e.attr.is_some() { Some(AttrInfo { hp: Some(max_hp) }) } else { e.attr },
                base_attr: if max_hp > 0 && e.base_attr.is_some() {
                    Some(AttrInfo { hp: Some(max_hp) })
                } else {
                    e.base_attr
                },
                ..e
            }
        },
    }
}

/// Every entity of `new` is the synced version of the entity at the same
/// place in `old`.
pub open spec fn entities_synced(old: Seq<FightEntityInfo>, new: Seq<FightEntityInfo>, mgr: EntityView) -> bool {
    &&& new.len() == old.len()
    &&& forall|i: int| 0 <= i < old.len() ==> #[trigger] new[i] == synced_entity(old[i], mgr)
}

/// A team after `sync_to_fight`: both entity lists synced in place.
pub open spec fn team_synced(old: Option<FightTeamInfo>, new: Option<FightTeamInfo>, mgr: EntityView) -> bool {
    match (old, new) {
        (None, None) => true,
        (Some(o), Some(n)) => entities_synced(o.entitys@, n.entitys@, mgr) && entities_synced(
            o.sub_entitys@,
            n.sub_entitys@,
            mgr,
        ) && n.cloth_id == o.cloth_id && n.power == o.power,
        _ => false,
    }
}

fn sync_entity(e: &mut FightEntityInfo, mgr: &EntityMgr)
    ensures
        *final(e) == synced_entity(*old(e), mgr@),
{
    if let Some(uid) = e.uid {
        e.ex_point = Some(mgr.get_ex_point(uid));
        e.current_hp = Some(mgr.get_hp(uid));
        let max_hp = mgr.get_max_hp(uid);
        if max_hp > 0 {
            if e.attr.is_some() {
                e.attr = Some(AttrInfo { hp: Some(max_hp) });
            }
            if e.base_attr.is_some() {
                e.base_attr = Some(AttrInfo { hp: Some(max_hp) });
            }
        }
    }
}

fn sync_entity_list(v: &mut Vec<FightEntityInfo>, mgr: &EntityMgr)
    ensures
        entities_synced(old(v)@, final(v)@, mgr@),
{
    let mut i: usize = 0;
    while i < v.len()
        invariant
            v@.len() == old(v)@.len(),
            i <= v@.len(),
            forall|j: int| 0 <= j < i ==> #[trigger] v@[j] == synced_entity(old(v)@[j], mgr@),
            forall|j: int| i <= j < v@.len() ==> #[trigger] v@[j] == old(v)@[j],
        decreases v@.len() - i,
    {
        sync_entity(&mut v[i], mgr);
        i += 1;
    }
}

fn sync_team(t: &mut Option<FightTeamInfo>, mgr: &EntityMgr)
    ensures
        team_synced(*old(t), *final(t), mgr@),
{
    match t {
        Some(team) => {
            sync_entity_list(&mut team.entitys, mgr);
            sync_entity_list(&mut team.sub_entitys, mgr);
        },
        None => {},
    }
}

/// Writes the manager's ex points and hp back into every entity of the
/// snapshot that has a uid; a known positive max hp also replaces the hp
/// of the entity's attribute blocks.
pub fn sync_to_fight(fight: &mut Fight, mgr: &EntityMgr)
    ensures
        team_synced(old(fight).attacker, final(fight).attacker, mgr@),
        team_synced(old(fight).defender, final(fight).defender, mgr@),
        final(fight).battle_id == old(fight).battle_id,
        final(fight).episode_id == old(fight).episode_id,
        final(fight).cur_wave == old(fight).cur_wave,
{
    sync_team(&mut fight.attacker, mgr);
    sync_team(&mut fight.defender, mgr);
}

/// Re-reads the unique skill points every entity with a uid needs from the
/// templates of its model.
pub fn seed_ex_point_required_from_fight(
    fight: &Fight,
    templates: &Vec<MonsterSkillTemplateRow>,
    mgr: &mut EntityMgr,
)
    ensures
        final(mgr)@ == (EntityView {
            required: fold_by_uid(all_entities(*fight), old(mgr)@.required, sel_required(templates@)),
            ..old(mgr)@
        }),
{
    let es = collect_all_entities(fight);
    let ghost s = all_entities(*fight);
    let mut i: usize = 0;
    while i < es.len()
        invariant
            es@.len() == s.len(),
            forall|j: int| 0 <= j < es@.len() ==> *es@[j] == s[j],
            i <= es@.len(),
            mgr@ == (EntityView {
                required: fold_by_uid(s.take(i as int), old(mgr)@.required, sel_required(templates@)),
                ..old(mgr)@
            }),
        decreases es@.len() - i,
    {
        let e = es[i];
        proof {
            lemma_fold_by_uid_step(s, i as int, old(mgr)@.required, sel_required(templates@));
        }
        if let Some(uid) = e.uid {
            let required = match e.model_id {
                Some(mid) => lookup_skill_point(templates, mid),
                None => 0,
            };
            mgr.ex_point_required.insert(uid, required);
        }
        i += 1;
    }
    proof {
        assert(s.take(s.len() as int) =~= s);
    }
}

/// The attacker team after substituting the first dead fielded entity at
/// `slot` with the first substitute, moved to that entity's position.
pub open spec fn substituted(old: FightTeamInfo, new: FightTeamInfo, slot: int, moved: FightEntityInfo) -> bool {
    &&& moved == FightEntityInfo { position: old.entitys@[slot].position, ..old.sub_entitys@[0] }
    &&& new.entitys@ == old.entitys@.update(slot, moved)
    &&& new.sub_entitys@ == old.sub_entitys@.skip(1)
    &&& new.cloth_id == old.cloth_id
    &&& new.power == old.power
}

fn find_dead_slot(es: &Vec<FightEntityInfo>) -> (r: Option<usize>)
    ensures
        match r {
            Some(i) => first_dead_slot(es@, i as int),
            None => forall|j: int| 0 <= j < es@.len() ==> !is_dead_slot(#[trigger] es@[j]),
        },
{
    let mut i: usize = 0;
    while i < es.len()
        invariant
            i <= es@.len(),
            forall|j: int| 0 <= j < i ==> !is_dead_slot(#[trigger] es@[j]),
        decreases es@.len() - i,
    {
        let e = &es[i];
        if e.uid.is_some() && i32_or(e.current_hp, 0) <= 0 && i32_or(e.position, 0) > 0 {
            return Some(i);
        }
        i += 1;
    }
    None
}

impl EntityMgr {
    /// When a fielded attacker entity is dead at a positive position and a
    /// substitute exists, moves the first substitute into the first such
    /// slot (taking over its position), rebuilds the location cache, and
    /// returns the dead uid, a copy of the new entity and the position.
    /// Otherwise changes nothing and returns `None`.
    pub fn sub_hero(&mut self, fight: &mut Fight) -> (r: Option<(i64, FightEntityInfo, i32)>)
        ensures
            match r {
                None => {
                    &&& *final(fight) == *old(fight)
                    &&& final(self)@ == old(self)@
                    &&& (old(fight).attacker matches Some(att) ==> att.sub_entitys@.len() == 0 || forall|j: int|
                        0 <= j < att.entitys@.len() ==> !is_dead_slot(#[trigger] att.entitys@[j]))
                },
                Some((dead_uid, entity, position)) => {
                    &&& old(fight).attacker matches Some(att)
                    &&& final(fight).attacker matches Some(new_att)
                    &&& att.sub_entitys@.len() > 0
                    &&& exists|slot: int| {
                        &&& first_dead_slot(att.entitys@, slot)
                        &&& att.entitys@[slot].uid == Some(dead_uid)
                        &&& att.entitys@[slot].position == Some(position)
                        &&& substituted(att, new_att, slot, new_att.entitys@[slot])
                        &&& same_entity(entity, new_att.entitys@[slot])
                    }
                    &&& final(fight).defender == old(fight).defender
                    &&& final(fight).battle_id == old(fight).battle_id
                    &&& final(fight).episode_id == old(fight).episode_id
                    &&& final(fight).cur_wave == old(fight).cur_wave
                    &&& final(self)@ == (EntityView { cache: spec_cache(*final(fight)), ..old(self)@ })
                },
            },
    {
        let found = match &mut fight.attacker {
            None => None,
            Some(att) => {
                if att.sub_entitys.len() == 0 {
                    None
                } else {
                    match find_dead_slot(&att.entitys) {
                        None => None,
                        Some(slot) => {
                            let dead_uid = match att.entitys[slot].uid {
                                Some(u) => u,
                                None => 0,
                            };
                            let position = i32_or(att.entitys[slot].position, 0);
                            let mut sub = att.sub_entitys.remove(0);
                            sub.position = Some(position);
                            let copy = sub.clone();
                            att.entitys.set(slot, sub);
                            proof {
                                assert(att.sub_entitys@ =~= old(fight).attacker.unwrap().sub_entitys@.skip(1));
                            }
                            Some((dead_uid, copy, position, slot))
                        },
                    }
                }
            },
        };
        match found {
            None => None,
            Some((dead_uid, copy, position, slot)) => {
                self.rebuild_cache(fight);
                proof {
                    let att = old(fight).attacker.unwrap();
                    let new_att = fight.attacker.unwrap();
                    assert(first_dead_slot(att.entitys@, slot as int));
                    assert(substituted(att, new_att, slot as int, new_att.entitys@[slot as int]));
                }
                Some((dead_uid, copy, position))
            },
        }
    }

    /// The fielded entities of both sides whose team type is `team_type`,
    /// attacker side first.
    pub fn get_team_entities<'a>(&self, fight: &'a Fight, team_type: i32) -> (r: Vec<&'a FightEntityInfo>)
        ensures
            r@.map_values(|e: &FightEntityInfo| *e) == (fielded(fight.attacker) + fielded(fight.defender)).filter(
                |e: FightEntityInfo| e.team_type == Some(team_type),
            ),
    {
        let mut out: Vec<&'a FightEntityInfo> = Vec::new();
        let ghost all = fielded(fight.attacker) + fielded(fight.defender);
        let ghost pred = |e: FightEntityInfo| e.team_type == Some(team_type);
        if let Some(att) = &fight.attacker {
            push_matching(&mut out, &att.entitys, team_type);
        }
        if let Some(def) = &fight.defender {
            push_matching(&mut out, &def.entitys, team_type);
        }
        proof {
            Seq::filter_distributes_over_add(fielded(fight.attacker), fielded(fight.defender), pred);
            assert(out@.map_values(|e: &FightEntityInfo| *e) =~= all.filter(pred));
        }
        out
    }
}

fn push_matching<'a>(out: &mut Vec<&'a FightEntityInfo>, es: &'a Vec<FightEntityInfo>, team_type: i32)
    ensures
        final(out)@.map_values(|e: &FightEntityInfo| *e) == old(out)@.map_values(|e: &FightEntityInfo| *e)
            + es@.filter(|e: FightEntityInfo| e.team_type == Some(team_type)),
{
    let ghost pred = |e: FightEntityInfo| e.team_type == Some(team_type);
    let mut i: usize = 0;
    while i < es.len()
        invariant
            i <= es@.len(),
            pred == (|e: FightEntityInfo| e.team_type == Some(team_type)),
            out@.map_values(|e: &FightEntityInfo| *e) =~= old(out)@.map_values(|e: &FightEntityInfo| *e)
                + es@.take(i as int).filter(pred),
        decreases es@.len() - i,
    {
        proof {
            assert(es@.take(i as int + 1).drop_last() =~= es@.take(i as int));
            assert(es@.take(i as int + 1).last() == es@[i as int]);
            reveal(Seq::filter);
        }
        let ghost before = out@;
        proof {
            assert(es@.take(i as int + 1).filter(pred) == (if pred(es@[i as int]) {
                es@.take(i as int).filter(pred).push(es@[i as int])
            } else {
                es@.take(i as int).filter(pred)
            }));
        }
        if es[i].team_type == Some(team_type) {
            out.push(&es[i]);
            proof {
                assert(out@.map_values(|e: &FightEntityInfo| *e) =~= before.map_values(|e: &FightEntityInfo| *e).push(es@[i as int]));
            }
        }
        i += 1;
    }
    proof { assert(es@.take(es@.len() as int) =~= es@); }
}

/// `after` is the team `before` with fielded entity `index` replaced by `e`
/// and everything else kept.
pub open spec fn entity_replaced(
    before: Option<FightTeamInfo>,
    after: Option<FightTeamInfo>,
    index: int,
    e: FightEntityInfo,
) -> bool {
    &&& before matches Some(b)
    &&& after matches Some(a)
    &&& a.entitys@ == b.entitys@.update(index, e)
    &&& a.sub_entitys@ == b.sub_entitys@
    &&& a.cloth_id == b.cloth_id
    &&& a.power == b.power
}

/// The fielded entity at `location`, for writing, when it exists. What is
/// written through it lands in that entity of the snapshot; nothing else
/// of the snapshot changes.
pub fn get_entity_mut_by_location(fight: &mut Fight, location: EntityLocation) -> (r: Option<&mut FightEntityInfo>)
    ensures
        match r {
            Some(e) => {
                let team = if location.is_attacker { old(fight).attacker } else { old(fight).defender };
                &&& team matches Some(t)
                &&& location.index < t.entitys@.len()
                &&& *e == t.entitys@[location.index as int]
                &&& final(fight).battle_id == old(fight).battle_id
                &&& final(fight).episode_id == old(fight).episode_id
                &&& final(fight).cur_wave == old(fight).cur_wave
                &&& if location.is_attacker {
                    &&& final(fight).defender == old(fight).defender
                    &&& entity_replaced(old(fight).attacker, final(fight).attacker, location.index as int, *final(e))
                } else {
                    &&& final(fight).attacker == old(fight).attacker
                    &&& entity_replaced(old(fight).defender, final(fight).defender, location.index as int, *final(e))
                }
            },
            None => {
                let team = if location.is_attacker { old(fight).attacker } else { old(fight).defender };
                &&& team matches Some(t) ==> location.index >= t.entitys@.len()
                &&& *final(fight) == *old(fight)
            },
        },
{
    let team = if location.is_attacker { &mut fight.attacker } else { &mut fight.defender };
    match team {
        Some(t) => {
            if location.index < t.entitys.len() {
                Some(&mut t.entitys[location.index])
            } else {
                None
            }
        },
        None => None,
    }
}

/// The slot a substitution fills is the first dead fielded slot: the
/// entity there has a uid, no hp left and a positive position, and no
/// earlier fielded entity is like that.
pub proof fn law_substitution_fills_the_first_dead_slot(es: Seq<FightEntityInfo>, slot: int)
    requires
        first_dead_slot(es, slot),
    ensures
        0 <= slot < es.len(),
        es[slot].uid.is_some() && opt_or(es[slot].current_hp, 0) <= 0 && opt_or(es[slot].position, 0) > 0,
        forall|j: int|
            0 <= j < slot ==> !((#[trigger] es[j]).uid.is_some() && opt_or(es[j].current_hp, 0) <= 0 && opt_or(
                es[j].position,
                0,
            ) > 0),
        forall|k: int| #[trigger] first_dead_slot(es, k) ==> k == slot,
{
    assert forall|k: int| #[trigger] first_dead_slot(es, k) implies k == slot by {
        if k < slot {
            assert(!is_dead_slot(es[k]));
        } else if k > slot {
            assert(!is_dead_slot(es[slot]));
        }
    }
}

} // verus!
