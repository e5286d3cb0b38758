//! Advanced Cure heal-over-time: the buffs that carry it and the entities
//! that tick.
use vstd::prelude::*;
use crate::buff_mgr::find_act_type;
use crate::config::{BattleConfig, BuffActRow, buff_row_index, find_buff_row};
use crate::dot::act_row;
use crate::fight::{Fight, FightEntityInfo, i32_or, opt_or, side_entities};
use crate::text::{parse_field, parse_field_range, split, split_range};

verus! {

/// One entry of the Advanced Cure scan, `act#period#attr#permille#...`:
/// `rest` is what the later entries give. An Advanced Cure entry with a
/// positive permille gives `(attr, permille)`; an entry whose act id does
/// not read or has no act row, or an Advanced Cure entry whose attribute
/// or permille does not read, gives nothing.
pub open spec fn cure_step(acts: Seq<BuffActRow>, parts: Seq<Seq<u8>>, rest: Option<(i32, i32)>) -> Option<(i32, i32)> {
    match parse_field(parts[0]) {
        None => None,
        Some(a) => match act_row(acts, a) {
            None => None,
            Some(r) => if acts[r].act_type@ == "AdvancedCure"@ {
                if parts.len() < 4 {
                    None
                } else {
                    match (parse_field(parts[2]), parse_field(parts[3])) {
                        (Some(attr), Some(p)) => if p > 0 { Some((attr, p)) } else { rest },
                        _ => None,
                    }
                }
            } else {
                rest
            },
        },
    }
}

/// The scan of the feature entries from entry `k` on.
pub open spec fn cure_from(acts: Seq<BuffActRow>, entries: Seq<Seq<u8>>, k: int) -> Option<(i32, i32)>
    decreases entries.len() - k,
{
    if k < 0 || k >= entries.len() {
        None
    } else {
        cure_step(acts, split(entries[k], 35u8), cure_from(acts, entries, k + 1))
    }
}

/// The Advanced Cure feature of `buff_id`, as `cure_from` finds it.
pub open spec fn cure_features(cfg: BattleConfig, buff_id: i32) -> Option<(i32, i32)> {
    match buff_row_index(cfg.skill_buff@, buff_id) {
        Some(r) => if cfg.skill_buff@[r].features@.len() == 0 {
            None
        } else {
            cure_from(cfg.buff_act@, split(cfg.skill_buff@[r].features@, 124u8), 0)
        },
        None => None,
    }
}

fn is_advanced_cure(acts: &Vec<BuffActRow>, r: usize) -> (b: bool)
    requires
        r < acts@.len(),
    ensures
        b == (acts@[r as int].act_type@ == "AdvancedCure"@),
{
    acts[r].act_type == "AdvancedCure".to_owned()
}

/// The source attribute and permille of the first Advanced Cure feature of
/// `buff_id` with a positive permille; `None` when there is none, or when
/// an entry before it has an unreadable act id or no act row, or its
/// attribute or permille is unreadable.
pub fn parse_advanced_cure_features(cfg: &BattleConfig, buff_id: i32) -> (r: Option<(i32, i32)>)
    ensures
        r == cure_features(*cfg, buff_id),
{
    let row = match find_buff_row(&cfg.skill_buff, buff_id) {
        Some(i) => i,
        None => return None,
    };
    let text = &cfg.skill_buff[row].features;
    if text.len() == 0 {
        return None;
    }
    let ghost entries = split(text@, 124u8);
    let ghost acts = cfg.buff_act@;
    let fields = split_range(text.as_slice(), 0, text.len(), 124u8);
    proof {
        assert(text@.subrange(0, text@.len() as int) =~= text@);
        assert(cure_features(*cfg, buff_id) == cure_from(acts, entries, 0));
    }
    let mut k: usize = 0;
    while k < fields.len()
        invariant
            entries == split(text@, 124u8),
            acts == cfg.buff_act@,
            fields@.len() == entries.len(),
            forall|i: int| 0 <= i < fields@.len() ==> #[trigger] fields@[i].0 <= fields@[i].1 <= text@.len(),
            forall|i: int| 0 <= i < fields@.len() ==> text@.subrange(#[trigger] fields@[i].0 as int, fields@[i].1 as int) == entries[i],
            k <= fields@.len(),
            cure_from(acts, entries, 0) == cure_from(acts, entries, k as int),
            cure_features(*cfg, buff_id) == cure_from(acts, entries, 0),
        decreases fields@.len() - k,
    {
        let (fa, fe) = fields[k];
        let parts = split_range(text.as_slice(), fa, fe, 35u8);
        let ghost ps = split(entries[k as int], 35u8);
        proof {
            assert(text@.subrange(fa as int, fe as int) == entries[k as int]);
            assert(cure_from(acts, entries, k as int) == cure_step(acts, ps, cure_from(acts, entries, k + 1)));
            assert(parts@.len() == ps.len());
            assert forall|i: int| 0 <= i < ps.len() implies text@.subrange(
                #[trigger] parts@[i].0 as int,
                parts@[i].1 as int,
            ) == ps[i] by {}
        }
        let act_id = match parse_field_range(text.as_slice(), parts[0].0, parts[0].1) {
            Some(a) => a,
            None => return None,
        };
        let r = match find_act_type(&cfg.buff_act, act_id) {
            Some(r) => r,
            None => return None,
        };
        if is_advanced_cure(&cfg.buff_act, r) {
            if parts.len() < 4 {
                return None;
            }
            let attr = parse_field_range(text.as_slice(), parts[2].0, parts[2].1);
            let permille = parse_field_range(text.as_slice(), parts[3].0, parts[3].1);
            match (attr, permille) {
                (Some(a), Some(p)) => {
                    if p > 0 {
                        return Some((a, p));
                    }
                },
                _ => return None,
            }
        }
        k += 1;
    }
    None
}

/// The uids of the alive entities (current hp above zero) among `es`, in
/// order.
pub open spec fn alive_uids_of(es: Seq<FightEntityInfo>) -> Seq<i64>
    decreases es.len(),
{
    if es.len() == 0 {
        Seq::empty()
    } else {
        alive_uids_of(es.drop_last()) + match es.last().uid {
            Some(u) => if opt_or(es.last().current_hp, 0) > 0 { seq![u] } else { Seq::empty() },
            None => Seq::empty(),
        }
    }
}

fn push_alive(out: &mut Vec<i64>, es: &Vec<FightEntityInfo>)
    ensures
        final(out)@ == old(out)@ + alive_uids_of(es@),
{
    let ghost base = out@;
    let mut i: usize = 0;
    while i < es.len()
        invariant
            i <= es@.len(),
            out@ == base + alive_uids_of(es@.take(i as int)),
        decreases es@.len() - i,
    {
        proof {
            assert(es@.take(i + 1).drop_last() =~= es@.take(i as int));
            assert(es@.take(i + 1).last() == es@[i as int]);
        }
        if i32_or(es[i].current_hp, 0) > 0 {
            if let Some(u) = es[i].uid {
                out.push(u);
            }
        }
        proof {
            assert(out@ =~= base + alive_uids_of(es@.take(i + 1)));
        }
        i += 1;
    }
    proof {
        assert(es@.take(es@.len() as int) =~= es@);
    }
}

proof fn lemma_alive_uids_append(a: Seq<FightEntityInfo>, b: Seq<FightEntityInfo>)
    ensures
        alive_uids_of(a + b) == alive_uids_of(a) + alive_uids_of(b),
    decreases b.len(),
{
    if b.len() == 0 {
        assert(a + b =~= a);
        assert(alive_uids_of(a) + Seq::<i64>::empty() =~= alive_uids_of(a));
    } else {
        lemma_alive_uids_append(a, b.drop_last());
        assert((a + b).drop_last() =~= a + b.drop_last());
        assert((a + b).last() == b.last());
        assert(alive_uids_of(a + b) =~= alive_uids_of(a) + alive_uids_of(b));
    }
}

/// The uids of every alive entity: attackers (fielded, then substitutes),
/// then defenders.
pub fn iter_alive_uids(fight: &Fight) -> (r: Vec<i64>)
    ensures
        r@ == alive_uids_of(side_entities(fight.attacker) + side_entities(fight.defender)),
{
    let mut uids: Vec<i64> = Vec::new();
    if let Some(side) = &fight.attacker {
        push_alive(&mut uids, &side.entitys);
        push_alive(&mut uids, &side.sub_entitys);
        proof { lemma_alive_uids_append(side.entitys@, side.sub_entitys@); }
    }
    proof {
        assert(uids@ =~= alive_uids_of(side_entities(fight.attacker)));
    }
    let ghost first = uids@;
    if let Some(side) = &fight.defender {
        push_alive(&mut uids, &side.entitys);
        push_alive(&mut uids, &side.sub_entitys);
        proof { lemma_alive_uids_append(side.entitys@, side.sub_entitys@); }
    }
    proof {
        assert(uids@ =~= first + alive_uids_of(side_entities(fight.defender)));
        lemma_alive_uids_append(side_entities(fight.attacker), side_entities(fight.defender));
    }
    uids
}

} // verus!
