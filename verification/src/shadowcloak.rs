//! Rubuska's Shadow Cloak: a share of the hp Rubuska loses is banked as
//! extra max hp for her team, capped at a share of her entry max hp; the
//! tunings come from the Raspberry feature of the accumulator buff.
use std::collections::HashMap;
use vstd::prelude::*;
use crate::buff_mgr::act_type_of;
use crate::config::{BattleConfig, BuffActRow, buff_row_index, find_buff_row};
use crate::fight::{Fight, FightEntityInfo, attacker_fielded, attr_hp, attr_hp_of, i32_or, i64_or, opt_or};
use crate::heroes::{HeroId, is_hero, is_rubuska};
use crate::round_mgr::{EntryMaxHp, entry_max_hp_of, lookup_entry_max_hp};
use crate::table::{
    div_trunc, first_index, get_or_i32, lemma_first_index_is, lemma_first_index_none, max_i32, min_i32, read_or_i32, tdiv,
    tdiv_any,
};
use crate::text::{parse_field, parse_field_range, split, split_range};

verus! {

/// The buff type of Rubuska's Shadow Cloak accumulator.
pub const SHADOW_CLOAK_ACCUMULATOR_BUFF_ID: i32 = 31250151;

/// The buff that tracks Shadow Cloak overflow.
pub const SHADOW_CLOAK_OVERFLOW_TRACKER_BUFF_ID: i32 = 31250161;

/// Shadow Cloak tunings, in permille: the share of lost hp banked and the
/// cap as a share of the entry max hp.
#[derive(Debug, Clone, Copy)]
pub struct ShadowCloakTunings {
    pub share_rate_permille: i32,
    pub max_hp_cap_permille: i32,
}

/// A feature entry `act#...` whose act is of type `act_type`.
pub open spec fn entry_has_act(acts: Seq<BuffActRow>, entry: Seq<u8>, act_type: Seq<char>) -> bool {
    match parse_field(split(entry, 35u8)[0]) {
        Some(a) => act_type_of(acts, a) == act_type,
        None => false,
    }
}

/// The `#`-fields of the first feature entry of `buff_id` whose act is of
/// type `act_type`.
pub open spec fn feature_parts(cfg: BattleConfig, buff_id: i32, act_type: Seq<char>) -> Option<Seq<Seq<u8>>> {
    match buff_row_index(cfg.skill_buff@, buff_id) {
        Some(row) => {
            let entries = split(cfg.skill_buff@[row].features@, 124u8);
            match first_index(entries, |e: Seq<u8>| entry_has_act(cfg.buff_act@, e, act_type)) {
                Some(k) => Some(split(entries[k], 35u8)),
                None => None,
            }
        },
        None => None,
    }
}

/// The tunings read from fields 3 and 4 of the accumulator buff's
/// Raspberry feature, when both are numbers.
pub open spec fn tunings_of(cfg: BattleConfig) -> Option<ShadowCloakTunings> {
    match feature_parts(cfg, SHADOW_CLOAK_ACCUMULATOR_BUFF_ID, "Raspberry"@) {
        Some(parts) => if parts.len() > 4 {
            match (parse_field(parts[3]), parse_field(parts[4])) {
                (Some(share), Some(cap)) => Some(
                    ShadowCloakTunings { share_rate_permille: share, max_hp_cap_permille: cap },
                ),
                _ => None,
            }
        } else {
            None
        },
        None => None,
    }
}

fn act_is_raspberry(acts: &Vec<BuffActRow>, act_id: i32) -> (r: bool)
    ensures
        r == (act_type_of(acts@, act_id) == "Raspberry"@),
{
    let ghost p = |a: BuffActRow| a.id == act_id;
    let mut i: usize = 0;
    while i < acts.len()
        invariant
            i <= acts@.len(),
            forall|j: int| 0 <= j < i ==> !p(#[trigger] acts@[j]),
            p == (|a: BuffActRow| a.id == act_id),
        decreases acts@.len() - i,
    {
        if acts[i].id == act_id {
            proof { lemma_first_index_is(acts@, p, i as int); }
            return acts[i].act_type == "Raspberry".to_owned();
        }
        i += 1;
    }
    proof {
        lemma_first_index_none(acts@, p);
        reveal_strlit("Raspberry");
        assert(act_type_of(acts@, act_id).len() == 0);
    }
    false
}

/// Reads the Shadow Cloak tunings from the Raspberry feature of the
/// accumulator buff: fields 3 (share) and 4 (cap); `None` when the buff,
/// the feature or either field is missing.
pub fn shadow_cloak_tunings(cfg: &BattleConfig) -> (r: Option<ShadowCloakTunings>)
    ensures
        r == tunings_of(*cfg),
{
    let row = match find_buff_row(&cfg.skill_buff, SHADOW_CLOAK_ACCUMULATOR_BUFF_ID) {
        Some(i) => i,
        None => return None,
    };
    let text = &cfg.skill_buff[row].features;
    let ghost entries = split(text@, 124u8);
    let ghost p = |e: Seq<u8>| entry_has_act(cfg.buff_act@, e, "Raspberry"@);
    let fields = split_range(text.as_slice(), 0, text.len(), 124u8);
    proof {
        assert(text@.subrange(0, text@.len() as int) =~= text@);
    }
    let mut k: usize = 0;
    while k < fields.len()
        invariant
            entries == split(text@, 124u8),
            text@ == cfg.skill_buff@[row as int].features@,
            row < cfg.skill_buff@.len(),
            buff_row_index(cfg.skill_buff@, SHADOW_CLOAK_ACCUMULATOR_BUFF_ID) == Some(row as int),
            p == (|e: Seq<u8>| entry_has_act(cfg.buff_act@, e, "Raspberry"@)),
            fields@.len() == entries.len(),
            forall|i: int| 0 <= i < fields@.len() ==> #[trigger] fields@[i].0 <= fields@[i].1 <= text@.len(),
            forall|i: int| 0 <= i < fields@.len() ==> text@.subrange(#[trigger] fields@[i].0 as int, fields@[i].1 as int) == entries[i],
            k <= fields@.len(),
            forall|i: int| 0 <= i < k ==> !p(#[trigger] entries[i]),
        decreases fields@.len() - k,
    {
        let (fa, fe) = fields[k];
        let parts = split_range(text.as_slice(), fa, fe, 35u8);
        proof {
            assert(text@.subrange(fa as int, fe as int) == entries[k as int]);
        }
        let hit = match parse_field_range(text.as_slice(), parts[0].0, parts[0].1) {
            Some(act) => act_is_raspberry(&cfg.buff_act, act),
            None => false,
        };
        if hit {
            proof {
                lemma_first_index_is(entries, p, k as int);
            }
            if parts.len() <= 4 {
                return None;
            }
            let share = parse_field_range(text.as_slice(), parts[3].0, parts[3].1);
            let cap = parse_field_range(text.as_slice(), parts[4].0, parts[4].1);
            return match (share, cap) {
                (Some(s), Some(c)) => Some(ShadowCloakTunings { share_rate_permille: s, max_hp_cap_permille: c }),
                _ => None,
            };
        }
        k += 1;
    }
    proof {
        lemma_first_index_none(entries, p);
    }
    None
}

/// `a * b / 1000` with Rust's truncating division.
pub open spec fn per_mille(a: i32, b: i32) -> int {
    tdiv(a * b, 1000)
}

/// The product of `a` and `b` fits an `i32`.
pub open spec fn mul_fits(a: i32, b: i32) -> bool {
    i32::MIN <= a * b <= i32::MAX
}

/// The Shadow Cloak capacity of an entry max hp.
pub fn shadow_cloak_capacity(entry_max_hp: i32, tunings: &ShadowCloakTunings) -> (r: i32)
    requires
        mul_fits(entry_max_hp, tunings.max_hp_cap_permille),
    ensures
        r == per_mille(entry_max_hp, tunings.max_hp_cap_permille),
{
    entry_max_hp * tunings.max_hp_cap_permille / 1000
}

/// What `entry_max_hp_from_shadow_cloak_capacity` accepts: a nonzero cap
/// and a quotient that fits.
pub open spec fn capacity_inverse_ok(max_capacity: i32, t: ShadowCloakTunings) -> bool {
    &&& t.max_hp_cap_permille != 0
    &&& mul_fits(max_capacity, 1000)
    &&& !(max_capacity * 1000 == i32::MIN && t.max_hp_cap_permille == -1)
}

/// The entry max hp whose capacity is `max_capacity` (truncated).
pub fn entry_max_hp_from_shadow_cloak_capacity(max_capacity: i32, tunings: &ShadowCloakTunings) -> (r: i32)
    requires
        capacity_inverse_ok(max_capacity, *tunings),
    ensures
        r == tdiv_any(max_capacity * 1000, tunings.max_hp_cap_permille as int),
{
    div_trunc(max_capacity * 1000, tunings.max_hp_cap_permille)
}

/// The cloak gained from a friend losing `loss` hp: the share of the loss,
/// at most the capacity of `max_hp`.
pub fn shadow_friend_hp_to_cloak_gain(loss: i32, max_hp: i32, tunings: &ShadowCloakTunings) -> (r: i32)
    requires
        mul_fits(loss, tunings.share_rate_permille),
        mul_fits(max_hp, tunings.max_hp_cap_permille),
    ensures
        r == min_i32(
            per_mille(loss, tunings.share_rate_permille) as i32,
            per_mille(max_hp, tunings.max_hp_cap_permille) as i32,
        ),
{
    let gain = loss * tunings.share_rate_permille / 1000;
    let cap = shadow_cloak_capacity(max_hp, tunings);
    if cap < gain {
        cap
    } else {
        gain
    }
}

/// Whether `buff_id` is of the Shadow Cloak accumulator type.
pub fn buff_is_shadow_cloak_accumulator(cfg: &BattleConfig, buff_id: i32) -> (r: bool)
    ensures
        r == match buff_row_index(cfg.skill_buff@, buff_id) {
            Some(i) => cfg.skill_buff@[i].type_id == SHADOW_CLOAK_ACCUMULATOR_BUFF_ID,
            None => false,
        },
{
    match find_buff_row(&cfg.skill_buff, buff_id) {
        Some(i) => cfg.skill_buff[i].type_id == SHADOW_CLOAK_ACCUMULATOR_BUFF_ID,
        None => false,
    }
}

/// Whether a buff on an entity of `model_id` is Rubuska's overflow tracker.
pub fn uses_shadow_cloak_overflow_tracker(model_id: Option<i32>, buff_id: i32) -> (r: bool)
    ensures
        r == (is_hero(model_id, HeroId::Rubuska) && buff_id == SHADOW_CLOAK_OVERFLOW_TRACKER_BUFF_ID),
{
    is_rubuska(model_id) && buff_id == SHADOW_CLOAK_OVERFLOW_TRACKER_BUFF_ID
}

/// The Raspberry cap seeded for a replayed battle, by battle id.
#[derive(Debug)]
pub struct SeededRaspberryMax {
    by_battle: HashMap<i32, i32>,
}

impl View for SeededRaspberryMax {
    type V = Map<i32, i32>;

    closed spec fn view(&self) -> Map<i32, i32> {
        self.by_battle@
    }
}

impl SeededRaspberryMax {
    /// No battle has a seeded cap.
    pub fn new() -> (r: Self)
        ensures
            r@ == Map::<i32, i32>::empty(),
    {
        SeededRaspberryMax { by_battle: HashMap::new() }
    }

    /// The cap seeded for `battle_id`, `0` when none.
    pub fn get(&self, battle_id: i32) -> (r: i32)
        ensures
            r == get_or_i32(self@, battle_id, 0),
    {
        read_or_i32(&self.by_battle, battle_id, 0)
    }
}

/// Records the Raspberry cap of a replayed battle; a battle without an id
/// or a cap that is not positive records nothing.
pub fn seed_replay_raspberry_max(fight: &Fight, max_capacity: i32, seeded: &mut SeededRaspberryMax)
    ensures
        final(seeded)@ == (if opt_or(fight.battle_id, 0) == 0 || max_capacity <= 0 {
            old(seeded)@
        } else {
            old(seeded)@.insert(opt_or(fight.battle_id, 0), max_capacity)
        }),
{
    let battle_id = i32_or(fight.battle_id, 0);
    if battle_id == 0 || max_capacity <= 0 {
        return;
    }
    seeded.by_battle.insert(battle_id, max_capacity);
}

/// The values of a `ShadowCloakState`.
pub ghost struct ShadowCloakView {
    pub total_shared: i32,
    pub last_gain_shared: i32,
    pub rubuska_entry_max_hp: i32,
    pub rubuska_uid: i64,
    pub raspberry_accum: i32,
    pub raspberry_max: i32,
}

/// Shadow Cloak bookkeeping for one battle.
#[derive(Debug)]
pub struct ShadowCloakState {
    total_shared: i32,
    last_gain_shared: i32,
    pub rubuska_entry_max_hp: i32,
    pub rubuska_uid: i64,
    pub raspberry_accum: i32,
    pub raspberry_max: i32,
}

impl View for ShadowCloakState {
    type V = ShadowCloakView;

    closed spec fn view(&self) -> ShadowCloakView {
        ShadowCloakView {
            total_shared: self.total_shared,
            last_gain_shared: self.last_gain_shared,
            rubuska_entry_max_hp: self.rubuska_entry_max_hp,
            rubuska_uid: self.rubuska_uid,
            raspberry_accum: self.raspberry_accum,
            raspberry_max: self.raspberry_max,
        }
    }
}

/// Rubuska's `(uid, max hp)` as the last Rubuska among `es` gives them,
/// `(uid, hp)` when there is none.
pub open spec fn rubuska_found(es: Seq<FightEntityInfo>, uid: i64, hp: i32) -> (i64, i32)
    decreases es.len(),
{
    if es.len() == 0 {
        (uid, hp)
    } else if is_hero(es.last().model_id, HeroId::Rubuska) {
        (opt_or(es.last().uid, 0), opt_or(attr_hp(es.last().attr), 0))
    } else {
        rubuska_found(es.drop_last(), uid, hp)
    }
}

/// The share Shadow Cloak banks of Rubuska's own hp loss, in permille.
pub const SELF_SHARE_PERMILLE: i32 = 700;

/// The Shadow Cloak cap as a share of Rubuska's entry max hp, in permille.
pub const CAP_PERMILLE: i32 = 150;

/// What `ShadowCloakState::add` banks for `uid` losing `hp_lost`: the
/// share of the loss, at most the capacity, nothing when not positive or
/// when `uid` is not Rubuska.
pub open spec fn cloak_gain(v: ShadowCloakView, uid: i64, hp_lost: i32) -> int {
    if uid != v.rubuska_uid {
        0
    } else {
        let cap = per_mille(v.rubuska_entry_max_hp, CAP_PERMILLE);
        let share = per_mille(hp_lost, SELF_SHARE_PERMILLE);
        let gain = if cap < share { cap } else { share };
        if gain <= 0 { 0 } else { gain }
    }
}

fn scan_rubuska(es: &Vec<FightEntityInfo>, uid: i64, hp: i32) -> (r: (i64, i32))
    ensures
        r == rubuska_found(es@, uid, hp),
{
    let mut u = uid;
    let mut h = hp;
    let mut i: usize = 0;
    while i < es.len()
        invariant
            i <= es@.len(),
            (u, h) == rubuska_found(es@.take(i as int), uid, hp),
        decreases es@.len() - i,
    {
        proof {
            assert(es@.take(i + 1).drop_last() =~= es@.take(i as int));
            assert(es@.take(i + 1).last() == es@[i as int]);
        }
        let e = &es[i];
        if is_rubuska(e.model_id) {
            u = i64_or(e.uid, 0);
            h = i32_or(attr_hp_of(&e.attr), 0);
        }
        i += 1;
    }
    proof { assert(es@.take(es@.len() as int) =~= es@); }
    (u, h)
}

fn scan_attacker(fight: &Fight, uid: i64, hp: i32) -> (r: (i64, i32))
    ensures
        r == rubuska_found(attacker_fielded(*fight), uid, hp),
{
    match &fight.attacker {
        Some(a) => scan_rubuska(&a.entitys, uid, hp),
        None => (uid, hp),
    }
}

impl ShadowCloakState {
    /// Everything zero: no Rubuska, nothing banked.
    pub fn new() -> (r: Self)
        ensures
            r@ == (ShadowCloakView {
                total_shared: 0,
                last_gain_shared: 0,
                rubuska_entry_max_hp: 0,
                rubuska_uid: 0,
                raspberry_accum: 0,
                raspberry_max: 0,
            }),
    {
        ShadowCloakState {
            total_shared: 0,
            last_gain_shared: 0,
            rubuska_entry_max_hp: 0,
            rubuska_uid: 0,
            raspberry_accum: 0,
            raspberry_max: 0,
        }
    }

    /// Finds Rubuska among the fielded attackers and sets the Raspberry
    /// cap: the seeded cap of the battle when positive (deriving the entry
    /// max hp from it), else 150 permille of her max hp.
    pub fn init(&mut self, fight: &Fight, seeded: &SeededRaspberryMax)
        requires
            ({
                let s = get_or_i32(seeded@, opt_or(fight.battle_id, 0), 0);
                let h = rubuska_found(attacker_fielded(*fight), old(self)@.rubuska_uid, old(self)@.rubuska_entry_max_hp).1;
                if s > 0 { mul_fits(s, 1000) } else { mul_fits(h, CAP_PERMILLE) }
            }),
        ensures
            ({
                let s = get_or_i32(seeded@, opt_or(fight.battle_id, 0), 0);
                let (u, h) = rubuska_found(attacker_fielded(*fight), old(self)@.rubuska_uid, old(self)@.rubuska_entry_max_hp);
                final(self)@ == if s > 0 {
                    ShadowCloakView {
                        rubuska_uid: u,
                        raspberry_max: s,
                        rubuska_entry_max_hp: tdiv(s * 1000, CAP_PERMILLE as int) as i32,
                        ..old(self)@
                    }
                } else {
                    ShadowCloakView {
                        rubuska_uid: u,
                        rubuska_entry_max_hp: h,
                        raspberry_max: per_mille(h, CAP_PERMILLE) as i32,
                        ..old(self)@
                    }
                }
            }),
    {
        let battle_id = i32_or(fight.battle_id, 0);
        let (u, h) = scan_attacker(fight, self.rubuska_uid, self.rubuska_entry_max_hp);
        self.rubuska_uid = u;
        self.rubuska_entry_max_hp = h;
        let seeded_max = seeded.get(battle_id);
        if seeded_max > 0 {
            self.raspberry_max = seeded_max;
            self.rubuska_entry_max_hp = seeded_max * 1000 / CAP_PERMILLE;
        } else {
            self.raspberry_max = self.rubuska_entry_max_hp * CAP_PERMILLE / 1000;
        }
    }

    /// Whether a Rubuska was found.
    pub fn is_active(&self) -> (r: bool)
        ensures
            r == (self@.rubuska_uid != 0),
    {
        self.rubuska_uid != 0
    }

    /// Banks the share of Rubuska's hp loss (at most the capacity) and
    /// returns it; other entities' losses and gains that are not positive
    /// bank nothing and return `0`.
    pub fn add(&mut self, uid: i64, hp_lost: i32) -> (r: i32)
        requires
            uid == old(self)@.rubuska_uid ==> mul_fits(old(self)@.rubuska_entry_max_hp, CAP_PERMILLE),
            uid == old(self)@.rubuska_uid ==> mul_fits(hp_lost, SELF_SHARE_PERMILLE),
            old(self)@.total_shared + cloak_gain(old(self)@, uid, hp_lost) <= i32::MAX,
        ensures
            r == cloak_gain(old(self)@, uid, hp_lost),
            0 <= r,
            r > 0 ==> r <= per_mille(old(self)@.rubuska_entry_max_hp, CAP_PERMILLE),
            final(self)@ == (if r > 0 {
                ShadowCloakView {
                    last_gain_shared: r,
                    total_shared: (old(self)@.total_shared + r) as i32,
                    ..old(self)@
                }
            } else {
                old(self)@
            }),
    {
        if uid != self.rubuska_uid {
            return 0;
        }
        let cap = self.rubuska_entry_max_hp * CAP_PERMILLE / 1000;
        let share = hp_lost * SELF_SHARE_PERMILLE / 1000;
        let gain = if cap < share { cap } else { share };
        if gain <= 0 {
            return 0;
        }
        self.last_gain_shared = gain;
        self.total_shared = self.total_shared + gain;
        gain
    }

    /// Forgets the gain of the current tick.
    pub fn reset_tick(&mut self)
        ensures
            final(self)@ == (ShadowCloakView { last_gain_shared: 0, ..old(self)@ }),
    {
        self.last_gain_shared = 0;
    }
}

/// Sets the Raspberry cap to `max_capacity` and the entry max hp to the
/// one whose capacity it is.
pub fn apply_seeded_shadow_cloak_capacity(state: &mut ShadowCloakState, max_capacity: i32, tunings: &ShadowCloakTunings)
    requires
        capacity_inverse_ok(max_capacity, *tunings),
    ensures
        final(state)@ == (ShadowCloakView {
            raspberry_max: max_capacity,
            rubuska_entry_max_hp: tdiv_any(max_capacity * 1000, tunings.max_hp_cap_permille as int) as i32,
            ..old(state)@
        }),
{
    state.raspberry_max = max_capacity;
    state.rubuska_entry_max_hp = entry_max_hp_from_shadow_cloak_capacity(max_capacity, tunings);
}

/// Finds Rubuska among the fielded attackers and sets the Raspberry cap
/// from the tunings: the seeded cap of the battle when positive, else the
/// capacity of her max hp.
pub fn init_shadow_cloak_state(
    state: &mut ShadowCloakState,
    fight: &Fight,
    seeded: &SeededRaspberryMax,
    tunings: &ShadowCloakTunings,
)
    requires
        ({
            let s = get_or_i32(seeded@, opt_or(fight.battle_id, 0), 0);
            let h = rubuska_found(attacker_fielded(*fight), old(state)@.rubuska_uid, old(state)@.rubuska_entry_max_hp).1;
            if s > 0 { capacity_inverse_ok(s, *tunings) } else { mul_fits(h, tunings.max_hp_cap_permille) }
        }),
    ensures
        ({
            let s = get_or_i32(seeded@, opt_or(fight.battle_id, 0), 0);
            let (u, h) = rubuska_found(attacker_fielded(*fight), old(state)@.rubuska_uid, old(state)@.rubuska_entry_max_hp);
            final(state)@ == if s > 0 {
                ShadowCloakView {
                    rubuska_uid: u,
                    raspberry_max: s,
                    rubuska_entry_max_hp: tdiv_any(s * 1000, tunings.max_hp_cap_permille as int) as i32,
                    ..old(state)@
                }
            } else {
                ShadowCloakView {
                    rubuska_uid: u,
                    rubuska_entry_max_hp: h,
                    raspberry_max: per_mille(h, tunings.max_hp_cap_permille) as i32,
                    ..old(state)@
                }
            }
        }),
{
    let battle_id = i32_or(fight.battle_id, 0);
    let (u, h) = scan_attacker(fight, state.rubuska_uid, state.rubuska_entry_max_hp);
    state.rubuska_uid = u;
    state.rubuska_entry_max_hp = h;
    let seeded_max = seeded.get(battle_id);
    if seeded_max > 0 {
        apply_seeded_shadow_cloak_capacity(state, seeded_max, tunings);
    } else {
        state.raspberry_max = shadow_cloak_capacity(state.rubuska_entry_max_hp, tunings);
    }
}

/// The hp a basic self-loss of `permille` costs `target`: that share of
/// its entry max hp (floored at zero), truncated.
pub fn basic_self_loss_amount(fight: &Fight, target: i64, permille: i32, tracker: &EntryMaxHp) -> (r: i32)
    requires
        mul_fits(max_i32(entry_max_hp_of(tracker@, *fight, target), 0), permille),
    ensures
        r == per_mille(max_i32(entry_max_hp_of(tracker@, *fight, target), 0), permille),
{
    let hp = lookup_entry_max_hp(fight, target, tracker);
    let base = if hp < 0 { 0 } else { hp };
    base * permille / 1000
}

} // verus!
