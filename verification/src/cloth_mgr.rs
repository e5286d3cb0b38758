//! Cloth (player skill) use counts and the cost of each use.
use std::collections::HashMap;
use vstd::prelude::*;
use crate::config::{BattleConfig, ClothLevelRow};
use crate::fight::{Fight, FightTeamInfo};
use crate::table::{first_index, lemma_first_index_is, lemma_first_index_none, max_i32};
use crate::text::{parse_field, parse_field_range, split, split_range, trim, trim_range};

verus! {

/// How often each cloth skill has been used this battle.
#[derive(Debug)]
pub struct ClothMgr {
    use_counts: HashMap<i32, usize>,
}

impl View for ClothMgr {
    type V = Map<i32, usize>;

    closed spec fn view(&self) -> Map<i32, usize> {
        self.use_counts@
    }
}

/// The uses of `skill_id` so far.
pub open spec fn uses_of(m: Map<i32, usize>, skill_id: i32) -> usize {
    if m.contains_key(skill_id) { m[skill_id] } else { 0 }
}

/// The cost of the use after `count` uses: the cost at that index, the
/// last cost once the list runs out, `0` for an empty list.
pub open spec fn cost_at(costs: Seq<i32>, count: usize) -> i32 {
    if count < costs.len() {
        costs[count as int]
    } else if costs.len() > 0 {
        costs.last()
    } else {
        0
    }
}

impl ClothMgr {
    /// No skill used yet.
    pub fn new() -> (r: Self)
        ensures
            r@ == Map::<i32, usize>::empty(),
    {
        ClothMgr { use_counts: HashMap::new() }
    }

    /// Forgets every use count.
    pub fn reset(&mut self)
        ensures
            final(self)@ == Map::<i32, usize>::empty(),
    {
        self.use_counts.clear();
    }

    /// Counts one more use of `skill_id` and returns its cost from the
    /// skill's cost list.
    pub fn use_cost(&mut self, skill_id: i32, costs: &[i32]) -> (r: i32)
        requires
            uses_of(old(self)@, skill_id) < usize::MAX,
        ensures
            r == cost_at(costs@, uses_of(old(self)@, skill_id)),
            final(self)@ == old(self)@.insert(skill_id, (uses_of(old(self)@, skill_id) + 1) as usize),
    {
        let count = match self.use_counts.get(&skill_id) {
            Some(c) => *c,
            None => 0,
        };
        let cost = if count < costs.len() {
            costs[count]
        } else if costs.len() > 0 {
            costs[costs.len() - 1]
        } else {
            0
        };
        self.use_counts.insert(skill_id, count + 1);
        cost
    }
}

/// The `(start round, amount)` of a recover entry `start#amount` (the
/// entry and each field trimmed; exactly two fields).
pub open spec fn recover_entry(entry: Seq<u8>) -> Option<(i32, i32)> {
    let parts = split(trim(entry), 35u8);
    if parts.len() != 2 {
        None
    } else {
        match (parse_field(parts[0]), parse_field(parts[1])) {
            (Some(start), Some(amount)) => Some((start, amount)),
            _ => None,
        }
    }
}

/// The power the entries `es` recover on `round`: the sum of the amounts
/// (floored at zero) of the readable entries that start on that round.
pub open spec fn recover_sum(es: Seq<Seq<u8>>, round: i32) -> int
    decreases es.len(),
{
    if es.len() == 0 {
        0
    } else {
        recover_sum(es.drop_last(), round) + match recover_entry(es.last()) {
            Some((start, amount)) => if start == round { max_i32(amount, 0) as int } else { 0 },
            None => 0,
        }
    }
}

proof fn lemma_recover_sum_mono(es: Seq<Seq<u8>>, round: i32, i: int)
    requires
        0 <= i <= es.len(),
    ensures
        0 <= recover_sum(es.take(i), round) <= recover_sum(es, round),
    decreases es.len() - i,
{
    if i < es.len() {
        lemma_recover_sum_mono(es, round, i + 1);
        assert(es.take(i + 1).drop_last() =~= es.take(i));
        lemma_recover_nonneg(es.take(i), round);
        assert(recover_sum(es.take(i + 1), round) >= recover_sum(es.take(i), round));
    } else {
        assert(es.take(i) =~= es);
        lemma_recover_nonneg(es, round);
    }
}

proof fn lemma_recover_nonneg(es: Seq<Seq<u8>>, round: i32)
    ensures
        recover_sum(es, round) >= 0,
    decreases es.len(),
{
    if es.len() > 0 {
        lemma_recover_nonneg(es.drop_last(), round);
    }
}

/// The cloth power recovered on `round_index`: the sum of the amounts
/// (floored at zero) of the `|`-separated `start#amount` entries of
/// `recover` that start on that round; unreadable entries count nothing.
pub fn parse_cloth_recover_delta(recover: &[u8], round_index: i32) -> (r: i32)
    requires
        recover_sum(split(recover@, 124u8), round_index) <= i32::MAX,
    ensures
        r == recover_sum(split(recover@, 124u8), round_index),
{
    let ghost entries = split(recover@, 124u8);
    let fields = split_range(recover, 0, recover.len(), 124u8);
    proof {
        assert(recover@.subrange(0, recover@.len() as int) =~= recover@);
    }
    let mut total: i32 = 0;
    let mut k: usize = 0;
    while k < fields.len()
        invariant
            entries == split(recover@, 124u8),
            recover_sum(entries, round_index) <= i32::MAX,
            fields@.len() == entries.len(),
            forall|i: int| 0 <= i < fields@.len() ==> #[trigger] fields@[i].0 <= fields@[i].1 <= recover@.len(),
            forall|i: int| 0 <= i < fields@.len() ==> recover@.subrange(#[trigger] fields@[i].0 as int, fields@[i].1 as int) == entries[i],
            k <= fields@.len(),
            total == recover_sum(entries.take(k as int), round_index),
        decreases fields@.len() - k,
    {
        let (fa, fe) = fields[k];
        proof {
            assert(recover@.subrange(fa as int, fe as int) == entries[k as int]);
            assert(entries.take(k + 1).drop_last() =~= entries.take(k as int));
            assert(entries.take(k + 1).last() == entries[k as int]);
            lemma_recover_sum_mono(entries, round_index, k + 1);
            lemma_recover_nonneg(entries.take(k as int), round_index);
        }
        let (ta, te) = trim_range(recover, fa, fe);
        let parts = split_range(recover, ta, te, 35u8);
        let ghost t = trim(entries[k as int]);
        proof {
            assert(recover@.subrange(ta as int, te as int) == t);
        }
        if parts.len() == 2 {
            let start = parse_field_range(recover, parts[0].0, parts[0].1);
            let amount = parse_field_range(recover, parts[1].0, parts[1].1);
            proof {
                assert(recover@.subrange(parts@[0].0 as int, parts@[0].1 as int) == split(t, 35u8)[0]);
                assert(recover@.subrange(parts@[1].0 as int, parts@[1].1 as int) == split(t, 35u8)[1]);
            }
            match (start, amount) {
                (Some(s), Some(a)) => {
                    if s == round_index {
                        let add = if a < 0 { 0 } else { a };
                        total = total + add;
                    }
                },
                _ => {},
            }
        }
        k += 1;
    }
    proof {
        assert(entries.take(entries.len() as int) =~= entries);
    }
    total
}

/// The first cloth level row of cloth `cloth_id` at level 1.
pub open spec fn level_one_row(rows: Seq<ClothLevelRow>, cloth_id: i32) -> Option<int> {
    first_index(rows, |c: ClothLevelRow| c.id == cloth_id && c.level == 1)
}

/// The level-1 row of the attacker's cloth, when the attacker has a cloth
/// and the table has such a row.
pub fn active_cloth_level(fight: &Fight, cfg: &BattleConfig) -> (r: Option<ClothLevelRow>)
    ensures
        r == match fight.attacker {
            Some(a) => match a.cloth_id {
                Some(id) => match level_one_row(cfg.cloth_level@, id) {
                    Some(i) => Some(cfg.cloth_level@[i]),
                    None => None,
                },
                None => None,
            },
            None => None,
        },
{
    let cloth_id = match &fight.attacker {
        Some(a) => match a.cloth_id {
            Some(id) => id,
            None => return None,
        },
        None => return None,
    };
    let rows = &cfg.cloth_level;
    let ghost p = |c: ClothLevelRow| c.id == cloth_id && c.level == 1;
    let mut i: usize = 0;
    while i < rows.len()
        invariant
            i <= rows@.len(),
            rows@ == cfg.cloth_level@,
            fight.attacker matches Some(a) && a.cloth_id == Some(cloth_id),
            p == (|c: ClothLevelRow| c.id == cloth_id && c.level == 1),
            forall|j: int| 0 <= j < i ==> !p(#[trigger] rows@[j]),
        decreases rows@.len() - i,
    {
        if rows[i].id == cloth_id && rows[i].level == 1 {
            proof { lemma_first_index_is(rows@, p, i as int); }
            return Some(rows[i]);
        }
        i += 1;
    }
    proof { lemma_first_index_none(rows@, p); }
    None
}

/// The attacker team with its power set to `p`.
pub open spec fn with_power(t: FightTeamInfo, p: i32) -> FightTeamInfo {
    FightTeamInfo { power: Some(p), ..t }
}

/// Gives an attacker without cloth power the cloth's initial power
/// (floored at zero).
pub fn seed_attacker_power_from_cloth(fight: &mut Fight, cloth: &ClothLevelRow)
    ensures
        final(fight).battle_id == old(fight).battle_id,
        final(fight).episode_id == old(fight).episode_id,
        final(fight).cur_wave == old(fight).cur_wave,
        final(fight).defender == old(fight).defender,
        final(fight).attacker == match old(fight).attacker {
            Some(a) => if a.power.is_none() { Some(with_power(a, max_i32(cloth.initial, 0))) } else { Some(a) },
            None => None,
        },
{
    if let Some(attacker) = &mut fight.attacker {
        if attacker.power.is_none() {
            attacker.power = Some(if cloth.initial < 0 { 0 } else { cloth.initial });
        }
    }
}

/// Moves the attacker's cloth power by `delta` (from the cloth's initial
/// power, floored at zero, when unset), clamped to `0..=max(max_power, 0)`.
pub open spec fn power_after(current: Option<i32>, cloth: ClothLevelRow, delta: i32) -> i32 {
    let cur = match current {
        Some(p) => p as int,
        None => max_i32(cloth.initial, 0) as int,
    };
    let hi = max_i32(cloth.max_power, 0) as int;
    let v = cur + delta;
    (if v < 0 { 0 } else if v > hi { hi } else { v }) as i32
}

/// Moves the attacker's cloth power by `delta`, clamped to the cloth's
/// range; a battle without an attacker is left alone.
pub fn apply_cloth_power_delta(fight: &mut Fight, cloth: &ClothLevelRow, delta: i32)
    requires
        match old(fight).attacker {
            Some(a) => i32::MIN <= (match a.power {
                Some(p) => p as int,
                None => max_i32(cloth.initial, 0) as int,
            }) + delta <= i32::MAX,
            None => true,
        },
    ensures
        final(fight).battle_id == old(fight).battle_id,
        final(fight).episode_id == old(fight).episode_id,
        final(fight).cur_wave == old(fight).cur_wave,
        final(fight).defender == old(fight).defender,
        final(fight).attacker == match old(fight).attacker {
            Some(a) => Some(with_power(a, power_after(a.power, *cloth, delta))),
            None => None,
        },
{
    if let Some(attacker) = &mut fight.attacker {
        let current = match attacker.power {
            Some(p) => p,
            None => if cloth.initial < 0 { 0 } else { cloth.initial },
        };
        let hi = if cloth.max_power < 0 { 0 } else { cloth.max_power };
        let v = current + delta;
        attacker.power = Some(if v < 0 { 0 } else if v > hi { hi } else { v });
    }
}

} // verus!
