//! Round bookkeeping: the max hp each entity entered a battle with, and
//! the round the simulator is on.
use std::collections::HashMap;
use vstd::prelude::*;
use crate::buff_mgr::{BuffInstance, BuffInstanceView};
use crate::config::{BattleConfig, BattleRow, EpisodeRow};
use crate::fight::{
    Fight, FightEntityInfo, FightTeamInfo, all_entities, attr_hp, attr_hp_of, collect_all_entities, i32_or, opt_or,
    team_entities,
};
use crate::table::{first_index, lemma_first_index_is, lemma_first_index_none, max_i32, read_or_zero};
use crate::text::{split, split_range};

verus! {

/// Runs the rounds of a battle.
#[derive(Debug, Clone, Copy)]
pub struct FightRoundMgr;

/// Where a battle stands after a step.
#[derive(Debug, Clone, Copy, PartialEq, Eq, Structural)]
pub enum BattleEndState {
    Ongoing,
    /// Every enemy is dead and more waves remain.
    WaveCleared,
    /// Every enemy of the last wave is dead.
    Victory,
    /// Every hero is dead.
    Defeat,
}

/// Whether a fielded entity of the team is alive.
pub open spec fn side_alive(t: Option<FightTeamInfo>) -> bool {
    match t {
        Some(team) => exists|i: int| 0 <= i < team.entitys@.len() && opt_or(#[trigger] team.entitys@[i].current_hp, 0) > 0,
        None => false,
    }
}

/// The battle state from who is alive: defeat when no hero lives, else a
/// cleared wave or victory when no enemy lives, else ongoing.
pub open spec fn battle_state(f: Fight, cur_wave: i32, max_wave: i32) -> BattleEndState {
    if !side_alive(f.attacker) {
        BattleEndState::Defeat
    } else if !side_alive(f.defender) {
        if cur_wave < max_wave { BattleEndState::WaveCleared } else { BattleEndState::Victory }
    } else {
        BattleEndState::Ongoing
    }
}

/// The number of waves of the snapshot's episode: the `#`-separated
/// monster groups of its battle, `1` when the groups are empty or the
/// episode or battle has no row.
pub open spec fn max_wave_of(cfg: BattleConfig, f: Fight) -> int {
    let episode_id = opt_or(f.episode_id, 0);
    let battle_id = match first_index(cfg.episode@, |e: EpisodeRow| e.id == episode_id) {
        Some(i) => cfg.episode@[i].battle_id,
        None => 0,
    };
    match first_index(cfg.battle@, |b: BattleRow| b.id == battle_id) {
        Some(i) => if cfg.battle@[i].monster_group_ids@.len() == 0 {
            1
        } else {
            split(cfg.battle@[i].monster_group_ids@, 35u8).len() as int
        },
        None => 1,
    }
}

/// The groups of no battle row are too many to count in an `i32`.
pub open spec fn wave_counts_fit(cfg: BattleConfig) -> bool {
    forall|i: int| 0 <= i < cfg.battle@.len() ==> split(#[trigger] cfg.battle@[i].monster_group_ids@, 35u8).len() <= i32::MAX
}

/// An alive, positioned defender.
pub open spec fn is_alive_defender(e: FightEntityInfo) -> bool {
    opt_or(e.position, -1i32) > 0 && opt_or(e.current_hp, 0) > 0
}

/// The uid of the first positioned, alive defender (fielded, then
/// substitutes), if that entity has one.
pub open spec fn first_alive_defender(f: Fight) -> Option<i64> {
    match f.defender {
        Some(d) => match first_index(team_entities(d), |e: FightEntityInfo| is_alive_defender(e)) {
            Some(i) => team_entities(d)[i].uid,
            None => None,
        },
        None => None,
    }
}

/// Whether `(target, buff uid)` is among the pairs of `after`.
pub open spec fn still_present(after: Seq<(i64, BuffInstanceView)>, target: i64, buff_uid: i64) -> bool {
    exists|j: int| 0 <= j < after.len() && after[j].0 == target && #[trigger] after[j].1.uid == buff_uid
}

/// `out` with `x` appended when `x` is positive and not yet listed.
pub open spec fn push_new(out: Seq<i32>, x: i32) -> Seq<i32> {
    if x > 0 && !out.contains(x) { out.push(x) } else { out }
}

/// The ids (buff id, then type id) of the instances of `before` that are
/// gone from `after`, each listed once, in order of first deletion.
pub open spec fn deleted_between(before: Seq<(i64, BuffInstanceView)>, after: Seq<(i64, BuffInstanceView)>) -> Seq<i32>
    decreases before.len(),
{
    if before.len() == 0 {
        Seq::empty()
    } else {
        let o = deleted_between(before.drop_last(), after);
        let (t, b) = before.last();
        if still_present(after, t, b.uid) { o } else { push_new(push_new(o, b.buff_id), b.type_id) }
    }
}

/// The pairs of a list of `(target, instance)`, by value.
pub open spec fn pair_values(v: Seq<(i64, BuffInstance)>) -> Seq<(i64, BuffInstanceView)> {
    v.map_values(|p: (i64, BuffInstance)| (p.0, p.1@))
}

fn any_alive(es: &Vec<FightEntityInfo>) -> (r: bool)
    ensures
        r == exists|i: int| 0 <= i < es@.len() && opt_or(#[trigger] es@[i].current_hp, 0) > 0,
{
    let mut i: usize = 0;
    while i < es.len()
        invariant
            i <= es@.len(),
            forall|j: int| 0 <= j < i ==> !(opt_or(#[trigger] es@[j].current_hp, 0) > 0),
        decreases es@.len() - i,
    {
        if i32_or(es[i].current_hp, 0) > 0 {
            return true;
        }
        i += 1;
    }
    false
}

fn team_alive(t: &Option<FightTeamInfo>) -> (r: bool)
    ensures
        r == side_alive(*t),
{
    match t {
        Some(team) => any_alive(&team.entitys),
        None => false,
    }
}

fn find_episode(rows: &Vec<EpisodeRow>, id: i32) -> (r: Option<usize>)
    ensures
        match r {
            Some(i) => i < rows@.len() && first_index(rows@, |e: EpisodeRow| e.id == id) == Some(i as int),
            None => first_index(rows@, |e: EpisodeRow| e.id == id) == None::<int>,
        },
{
    let ghost p = |e: EpisodeRow| e.id == id;
    let mut i: usize = 0;
    while i < rows.len()
        invariant
            i <= rows@.len(),
            p == (|e: EpisodeRow| e.id == id),
            forall|j: int| 0 <= j < i ==> !p(#[trigger] rows@[j]),
        decreases rows@.len() - i,
    {
        if rows[i].id == id {
            proof { lemma_first_index_is(rows@, p, i as int); }
            return Some(i);
        }
        i += 1;
    }
    proof { lemma_first_index_none(rows@, p); }
    None
}

pub(crate) fn find_battle(rows: &Vec<BattleRow>, id: i32) -> (r: Option<usize>)
    ensures
        match r {
            Some(i) => i < rows@.len() && first_index(rows@, |b: BattleRow| b.id == id) == Some(i as int),
            None => first_index(rows@, |b: BattleRow| b.id == id) == None::<int>,
        },
{
    let ghost p = |b: BattleRow| b.id == id;
    let mut i: usize = 0;
    while i < rows.len()
        invariant
            i <= rows@.len(),
            p == (|b: BattleRow| b.id == id),
            forall|j: int| 0 <= j < i ==> !p(#[trigger] rows@[j]),
        decreases rows@.len() - i,
    {
        if rows[i].id == id {
            proof { lemma_first_index_is(rows@, p, i as int); }
            return Some(i);
        }
        i += 1;
    }
    proof { lemma_first_index_none(rows@, p); }
    None
}

fn vec_contains_i32(v: &Vec<i32>, x: i32) -> (r: bool)
    ensures
        r == v@.contains(x),
{
    let mut i: usize = 0;
    while i < v.len()
        invariant
            i <= v@.len(),
            forall|j: int| 0 <= j < i ==> v@[j] != x,
        decreases v@.len() - i,
    {
        if v[i] == x {
            proof { assert(v@[i as int] == x); }
            return true;
        }
        i += 1;
    }
    false
}

fn push_if_new(out: &mut Vec<i32>, x: i32)
    ensures
        final(out)@ == push_new(old(out)@, x),
{
    if x > 0 && !vec_contains_i32(out, x) {
        out.push(x);
    }
}

impl FightRoundMgr {
    /// A round manager.
    pub fn new() -> (r: Self) {
        FightRoundMgr
    }

    /// Where the battle stands: defeat when no fielded hero is alive; when
    /// no fielded enemy is alive, a cleared wave before `max_wave` and
    /// victory at it; ongoing otherwise.
    pub fn check_battle_state(&self, fight: &Fight, cur_wave: i32, max_wave: i32) -> (r: BattleEndState)
        ensures
            r == battle_state(*fight, cur_wave, max_wave),
    {
        let enemies_alive = team_alive(&fight.defender);
        let heroes_alive = team_alive(&fight.attacker);
        if !heroes_alive {
            return BattleEndState::Defeat;
        }
        if !enemies_alive {
            if cur_wave < max_wave {
                return BattleEndState::WaveCleared;
            }
            return BattleEndState::Victory;
        }
        BattleEndState::Ongoing
    }

    /// The number of waves of the snapshot's episode.
    pub fn get_max_wave(&self, fight: &Fight, cfg: &BattleConfig) -> (r: i32)
        requires
            wave_counts_fit(*cfg),
        ensures
            r == max_wave_of(*cfg, *fight),
    {
        let episode_id = i32_or(fight.episode_id, 0);
        let battle_id = match find_episode(&cfg.episode, episode_id) {
            Some(i) => cfg.episode[i].battle_id,
            None => 0,
        };
        match find_battle(&cfg.battle, battle_id) {
            Some(k) => {
                let groups = &cfg.battle[k].monster_group_ids;
                if groups.len() == 0 {
                    return 1;
                }
                let parts = split_range(groups.as_slice(), 0, groups.len(), 35u8);
                proof {
                    assert(groups@.subrange(0, groups@.len() as int) =~= groups@);
                    assert(split(cfg.battle@[k as int].monster_group_ids@, 35u8).len() <= i32::MAX);
                }
                parts.len() as i32
            },
            None => 1,
        }
    }

    /// Whether the battle is over: won or lost.
    pub fn check_battle_end(&self, fight: &Fight, cfg: &BattleConfig) -> (r: bool)
        requires
            wave_counts_fit(*cfg),
        ensures
            r == (battle_state(*fight, opt_or(fight.cur_wave, 1), max_wave_of(*cfg, *fight) as i32)
                == BattleEndState::Victory || battle_state(*fight, opt_or(fight.cur_wave, 1), max_wave_of(*cfg, *fight) as i32)
                == BattleEndState::Defeat),
    {
        let cur_wave = i32_or(fight.cur_wave, 1);
        let max_wave = self.get_max_wave(fight, cfg);
        match self.check_battle_state(fight, cur_wave, max_wave) {
            BattleEndState::Victory | BattleEndState::Defeat => true,
            _ => false,
        }
    }

    /// The uid of the first positioned, alive defender, if any.
    pub fn first_alive_defender_uid(&self, fight: &Fight) -> (r: Option<i64>)
        ensures
            r == first_alive_defender(*fight),
    {
        let d = match &fight.defender {
            Some(d) => d,
            None => return None,
        };
        let ghost es = team_entities(*d);
        let ghost p = |e: FightEntityInfo| is_alive_defender(e);
        let n = d.entitys.len();
        let mut i: usize = 0;
        while i < n
            invariant
                n == d.entitys@.len(),
                es == d.entitys@ + d.sub_entitys@,
                p == (|e: FightEntityInfo| is_alive_defender(e)),
                fight.defender == Some(*d),
                i <= n,
                forall|j: int| 0 <= j < i ==> !p(#[trigger] es[j]),
            decreases n - i,
        {
            let e = &d.entitys[i];
            proof { assert(es[i as int] == *e); }
            if i32_or(e.position, -1) > 0 && i32_or(e.current_hp, 0) > 0 {
                proof { lemma_first_index_is(es, p, i as int); }
                return e.uid;
            }
            i += 1;
        }
        let mut j: usize = 0;
        while j < d.sub_entitys.len()
            invariant
                n == d.entitys@.len(),
                es == d.entitys@ + d.sub_entitys@,
                p == (|e: FightEntityInfo| is_alive_defender(e)),
                fight.defender == Some(*d),
                j <= d.sub_entitys@.len(),
                forall|k: int| 0 <= k < n + j ==> !p(#[trigger] es[k]),
            decreases d.sub_entitys@.len() - j,
        {
            let e = &d.sub_entitys[j];
            proof { assert(es[n + j] == *e); }
            if i32_or(e.position, -1) > 0 && i32_or(e.current_hp, 0) > 0 {
                proof { lemma_first_index_is(es, p, n + j); }
                return e.uid;
            }
            j += 1;
        }
        proof { lemma_first_index_none(es, p); }
        None
    }

    /// The ids deleted between two listings of a buff manager: for each
    /// `(target, instance)` of `before` whose uid is gone from `after` on
    /// that target, its buff id and then its type id, positive ones only,
    /// each listed once.
    pub fn deleted_buff_ids_from_delta(&self, before: &[(i64, BuffInstance)], after: &[(i64, BuffInstance)]) -> (r: Vec<i32>)
        ensures
            r@ == deleted_between(pair_values(before@), pair_values(after@)),
    {
        let ghost bv = pair_values(before@);
        let ghost av = pair_values(after@);
        let mut out: Vec<i32> = Vec::new();
        let mut i: usize = 0;
        while i < before.len()
            invariant
                i <= before@.len(),
                bv == pair_values(before@),
                av == pair_values(after@),
                out@ == deleted_between(bv.take(i as int), av),
            decreases before@.len() - i,
        {
            let (t, b) = (before[i].0, &before[i].1);
            let mut present = false;
            let mut k: usize = 0;
            while k < after.len()
                invariant
                    k <= after@.len(),
                    av == pair_values(after@),
                    present == exists|j: int| 0 <= j < k && av[j].0 == t && #[trigger] av[j].1.uid == b.uid,
                decreases after@.len() - k,
            {
                let hit = after[k].0 == t && after[k].1.uid == b.uid;
                proof {
                    assert(av[k as int] == (after@[k as int].0, after@[k as int].1@));
                    assert(hit == (av[k as int].0 == t && av[k as int].1.uid == b.uid));
                }
                if hit {
                    present = true;
                }
                k += 1;
            }
            proof {
                assert(bv.take(i + 1).drop_last() =~= bv.take(i as int));
                assert(bv.take(i + 1).last() == bv[i as int]);
                assert(bv[i as int] == (t, b@));
            }
            if !present {
                push_if_new(&mut out, b.buff_id);
                push_if_new(&mut out, b.type_id);
            }
            i += 1;
        }
        proof {
            assert(bv.take(before@.len() as int) =~= bv);
        }
        out
    }
}

/// The max hp an entity enters with: its base attribute hp, else its
/// attribute hp, else its current hp, and never below its current hp.
pub open spec fn entry_hp(e: FightEntityInfo) -> i32 {
    let cur = opt_or(e.current_hp, 0);
    max_i32(opt_or(attr_hp(e.base_attr), opt_or(attr_hp(e.attr), cur)), cur)
}

/// The map reached by walking `es` and storing each uid's entry hp unless
/// the uid already has one.
pub open spec fn seed_entry_fold(es: Seq<FightEntityInfo>, m: Map<i64, i32>) -> Map<i64, i32>
    decreases es.len(),
{
    if es.len() == 0 {
        m
    } else {
        let prev = seed_entry_fold(es.drop_last(), m);
        match es.last().uid {
            Some(u) => if prev.contains_key(u) { prev } else { prev.insert(u, entry_hp(es.last())) },
            None => prev,
        }
    }
}

/// Entry max hp per battle id and entity uid.
#[derive(Debug)]
pub struct EntryMaxHp {
    by_battle: HashMap<i32, HashMap<i64, i32>>,
}

impl View for EntryMaxHp {
    type V = Map<(i32, i64), i32>;

    closed spec fn view(&self) -> Map<(i32, i64), i32> {
        Map::new(
            |k: (i32, i64)| self.by_battle@.contains_key(k.0) && self.by_battle@[k.0]@.contains_key(k.1),
            |k: (i32, i64)| self.by_battle@[k.0]@[k.1],
        )
    }
}

/// The entries of battle `b` in a tracker view.
pub open spec fn battle_entries(v: Map<(i32, i64), i32>, b: i32) -> Map<i64, i32> {
    Map::new(|u: i64| v.contains_key((b, u)), |u: i64| v[(b, u)])
}

/// A tracker view with the entries of battle `b` replaced by `m`.
pub open spec fn with_battle_entries(v: Map<(i32, i64), i32>, b: i32, m: Map<i64, i32>) -> Map<(i32, i64), i32> {
    Map::new(
        |k: (i32, i64)| if k.0 == b { m.contains_key(k.1) } else { v.contains_key(k) },
        |k: (i32, i64)| if k.0 == b { m[k.1] } else { v[k] },
    )
}

impl EntryMaxHp {
    /// No battle has entries.
    pub fn new() -> (r: Self)
        ensures
            r@ == Map::<(i32, i64), i32>::empty(),
    {
        let r = EntryMaxHp { by_battle: HashMap::new() };
        proof {
            assert(r@ =~= Map::<(i32, i64), i32>::empty());
        }
        r
    }
}

/// Records the entry max hp of every entity of the snapshot that has a uid
/// and no entry yet in its battle; a battle without an id records nothing.
#[verifier::spinoff_prover]
pub fn seed_entry_max_hp_from_fight(fight: &Fight, tracker: &mut EntryMaxHp)
    ensures
        final(tracker)@ == (if opt_or(fight.battle_id, 0) == 0 {
            old(tracker)@
        } else {
            with_battle_entries(
                old(tracker)@,
                opt_or(fight.battle_id, 0),
                seed_entry_fold(all_entities(*fight), battle_entries(old(tracker)@, opt_or(fight.battle_id, 0))),
            )
        }),
{
    let battle_id = i32_or(fight.battle_id, 0);
    if battle_id == 0 {
        return;
    }
    let ghost v0 = tracker@;
    let ghost outer0 = tracker.by_battle@;
    let mut inner = match tracker.by_battle.remove(&battle_id) {
        Some(m) => m,
        None => HashMap::new(),
    };
    proof {
        assert(inner@ =~= battle_entries(v0, battle_id));
    }
    let es = collect_all_entities(fight);
    let ghost s = all_entities(*fight);
    let ghost m0 = inner@;
    let mut i: usize = 0;
    while i < es.len()
        invariant
            es@.len() == s.len(),
            forall|j: int| 0 <= j < es@.len() ==> *es@[j] == s[j],
            i <= es@.len(),
            inner@ == seed_entry_fold(s.take(i as int), m0),
        decreases es@.len() - i,
    {
        let e = es[i];
        proof {
            assert(s.take(i + 1).drop_last() =~= s.take(i as int));
            assert(s.take(i + 1).last() == s[i as int]);
        }
        if let Some(uid) = e.uid {
            if !inner.contains_key(&uid) {
                let cur = i32_or(e.current_hp, 0);
                let base = match attr_hp_of(&e.base_attr) {
                    Some(h) => h,
                    None => match attr_hp_of(&e.attr) {
                        Some(h) => h,
                        None => cur,
                    },
                };
                inner.insert(uid, if base < cur { cur } else { base });
            }
        }
        i += 1;
    }
    proof {
        assert(s.take(s.len() as int) =~= s);
    }
    tracker.by_battle.insert(battle_id, inner);
    proof {
        assert(tracker@ =~= with_battle_entries(v0, battle_id, seed_entry_fold(s, battle_entries(v0, battle_id))));
    }
}

/// The entry max hp of `uid` in the snapshot's battle, `0` when the battle
/// has no id, the uid is `0`, or there is no entry.
pub open spec fn entry_max_hp_of(v: Map<(i32, i64), i32>, fight: Fight, uid: i64) -> i32 {
    let b = opt_or(fight.battle_id, 0);
    if b == 0 || uid == 0 {
        0
    } else if v.contains_key((b, uid)) {
        v[(b, uid)]
    } else {
        0
    }
}

/// The entry max hp of `uid` in the snapshot's battle (`0` when unknown).
pub fn lookup_entry_max_hp(fight: &Fight, uid: i64, tracker: &EntryMaxHp) -> (r: i32)
    ensures
        r == entry_max_hp_of(tracker@, *fight, uid),
{
    let battle_id = i32_or(fight.battle_id, 0);
    if battle_id == 0 || uid == 0 {
        return 0;
    }
    match tracker.by_battle.get(&battle_id) {
        Some(inner) => read_or_zero(inner, uid),
        None => 0,
    }
}

/// The round the simulator is on.
#[derive(Debug, Clone, Copy)]
pub struct SimulatedRound {
    pub round: i32,
}

/// Records the round the simulator is on.
pub fn set_simulated_round(state: &mut SimulatedRound, round: i32)
    ensures
        final(state).round == round,
{
    state.round = round;
}

/// The round the simulator is on.
pub fn simulated_round(state: &SimulatedRound) -> (r: i32)
    ensures
        r == state.round,
{
    state.round
}

/// The ids `deleted_buff_ids_from_delta` reports are positive and listed
/// once each.
pub proof fn law_deleted_ids_are_distinct_and_positive(
    before: Seq<(i64, BuffInstanceView)>,
    after: Seq<(i64, BuffInstanceView)>,
)
    ensures
        deleted_between(before, after).no_duplicates(),
        forall|i: int| 0 <= i < deleted_between(before, after).len() ==> #[trigger] deleted_between(before, after)[i] > 0,
    decreases before.len(),
{
    if before.len() > 0 {
        law_deleted_ids_are_distinct_and_positive(before.drop_last(), after);
        let o = deleted_between(before.drop_last(), after);
        let (t, b) = before.last();
        if !still_present(after, t, b.uid) {
            lemma_push_new(o, b.buff_id);
            lemma_push_new(push_new(o, b.buff_id), b.type_id);
        }
    }
}

proof fn lemma_push_new(out: Seq<i32>, x: i32)
    requires
        out.no_duplicates(),
        forall|i: int| 0 <= i < out.len() ==> #[trigger] out[i] > 0,
    ensures
        push_new(out, x).no_duplicates(),
        forall|i: int| 0 <= i < push_new(out, x).len() ==> #[trigger] push_new(out, x)[i] > 0,
{
    if x > 0 && !out.contains(x) {
        let n = out.push(x);
        assert forall|i: int, j: int| 0 <= i < n.len() && 0 <= j < n.len() && i != j implies n[i] != n[j] by {
            if i < out.len() && j < out.len() {
            } else if i == out.len() {
                assert(n[j] == out[j]);
                assert(out.contains(out[j]));
            } else {
                assert(n[i] == out[i]);
                assert(out.contains(out[i]));
            }
        }
    }
}

/// Where a battle stands follows who is alive among the fielded entities:
/// defeat exactly when no fielded hero has hp left; ongoing exactly when
/// some fielded hero and some fielded enemy have hp left; otherwise the
/// wave is cleared before the last wave and won at it.
pub proof fn law_battle_state_follows_who_is_alive(f: Fight, cur_wave: i32, max_wave: i32)
    ensures
        ({
            let hero_alive = match f.attacker {
                Some(a) => exists|i: int| 0 <= i < a.entitys@.len() && opt_or((#[trigger] a.entitys@[i]).current_hp, 0) > 0,
                None => false,
            };
            let enemy_alive = match f.defender {
                Some(d) => exists|i: int| 0 <= i < d.entitys@.len() && opt_or((#[trigger] d.entitys@[i]).current_hp, 0) > 0,
                None => false,
            };
            &&& (battle_state(f, cur_wave, max_wave) == BattleEndState::Defeat) == !hero_alive
            &&& (battle_state(f, cur_wave, max_wave) == BattleEndState::Ongoing) == (hero_alive && enemy_alive)
            &&& (battle_state(f, cur_wave, max_wave) == BattleEndState::WaveCleared) == (hero_alive && !enemy_alive
                && cur_wave < max_wave)
            &&& (battle_state(f, cur_wave, max_wave) == BattleEndState::Victory) == (hero_alive && !enemy_alive
                && cur_wave >= max_wave)
        }),
{
}

} // verus!
