//! Recognising poison-family damage-over-time buffs from their features.
use vstd::prelude::*;
use crate::buff_mgr::find_act_type;
use crate::config::{BattleConfig, BuffActRow, buff_row_index, find_buff_row};
use crate::table::first_index;
use crate::text::{parse_field, parse_field_range, split, split_range};

verus! {

/// The poison family a damage-over-time feature belongs to.
#[derive(Debug, Clone, Copy, PartialEq, Eq, Structural)]
pub enum DotKind {
    Poison,
    DeadlyPoison,
}

/// The act row of `act_id`.
pub open spec fn act_row(acts: Seq<BuffActRow>, act_id: i32) -> Option<int> {
    first_index(acts, |a: BuffActRow| a.id == act_id)
}

/// The poison family of an act type, if it has one.
pub open spec fn dot_kind_of(t: Seq<char>) -> Option<DotKind> {
    if t == "Poison"@ {
        Some(DotKind::Poison)
    } else if t == "DeadlyPoison"@ {
        Some(DotKind::DeadlyPoison)
    } else {
        None
    }
}

/// One entry of the scan: `rest` is what the later entries give. A
/// poison-family entry with a positive permille gives `(family,
/// permille)`; an entry whose act id does not parse or has no act row, or
/// a poison-family entry whose permille does not parse, gives nothing.
pub open spec fn dot_step(acts: Seq<BuffActRow>, parts: Seq<Seq<u8>>, rest: Option<(DotKind, i32)>) -> Option<
    (DotKind, i32),
> {
    match parse_field(parts[0]) {
        None => None,
        Some(a) => match act_row(acts, a) {
            None => None,
            Some(r) => match dot_kind_of(acts[r].act_type@) {
                Some(kind) => if parts.len() < 2 {
                    None
                } else {
                    match parse_field(parts[1]) {
                        None => None,
                        Some(p) => if p > 0 { Some((kind, p)) } else { rest },
                    }
                },
                None => rest,
            },
        },
    }
}

/// The scan of the feature entries from entry `k` on.
pub open spec fn dot_from(acts: Seq<BuffActRow>, entries: Seq<Seq<u8>>, k: int) -> Option<(DotKind, i32)>
    decreases entries.len() - k,
{
    if k < 0 || k >= entries.len() {
        None
    } else {
        dot_step(acts, split(entries[k], 35u8), dot_from(acts, entries, k + 1))
    }
}

/// The poison-family feature of `buff_id`, as `dot_from` finds it.
pub open spec fn dot_features(cfg: BattleConfig, buff_id: i32) -> Option<(DotKind, i32)> {
    match buff_row_index(cfg.skill_buff@, buff_id) {
        Some(r) => if cfg.skill_buff@[r].features@.len() == 0 {
            None
        } else {
            dot_from(cfg.buff_act@, split(cfg.skill_buff@[r].features@, 124u8), 0)
        },
        None => None,
    }
}

fn dot_kind(acts: &Vec<BuffActRow>, r: usize) -> (k: Option<DotKind>)
    requires
        r < acts@.len(),
    ensures
        k == dot_kind_of(acts@[r as int].act_type@),
{
    if acts[r].act_type == "Poison".to_owned() {
        Some(DotKind::Poison)
    } else if acts[r].act_type == "DeadlyPoison".to_owned() {
        Some(DotKind::DeadlyPoison)
    } else {
        None
    }
}

/// The poison family and permille of the first poison-family feature of
/// `buff_id` with a positive permille; `None` when the buff has none, or
/// when an entry before it has an unreadable act id or no act row, or its
/// permille is unreadable.
pub fn parse_dot_features(cfg: &BattleConfig, buff_id: i32) -> (r: Option<(DotKind, i32)>)
    ensures
        r == dot_features(*cfg, buff_id),
{
    let row = match find_buff_row(&cfg.skill_buff, buff_id) {
        Some(i) => i,
        None => return None,
    };
    let text = &cfg.skill_buff[row].features;
    if text.len() == 0 {
        return None;
    }
    let ghost entries = split(text@, 124u8);
    let ghost acts = cfg.buff_act@;
    let fields = split_range(text.as_slice(), 0, text.len(), 124u8);
    proof {
        assert(text@.subrange(0, text@.len() as int) =~= text@);
        assert(dot_features(*cfg, buff_id) == dot_from(acts, entries, 0));
    }
    let mut k: usize = 0;
    while k < fields.len()
        invariant
            entries == split(text@, 124u8),
            acts == cfg.buff_act@,
            fields@.len() == entries.len(),
            forall|i: int| 0 <= i < fields@.len() ==> #[trigger] fields@[i].0 <= fields@[i].1 <= text@.len(),
            forall|i: int| 0 <= i < fields@.len() ==> text@.subrange(#[trigger] fields@[i].0 as int, fields@[i].1 as int) == entries[i],
            k <= fields@.len(),
            dot_from(acts, entries, 0) == dot_from(acts, entries, k as int),
            dot_features(*cfg, buff_id) == dot_from(acts, entries, 0),
        decreases fields@.len() - k,
    {
        let (fa, fe) = fields[k];
        let parts = split_range(text.as_slice(), fa, fe, 35u8);
        let ghost ps = split(entries[k as int], 35u8);
        proof {
            assert(text@.subrange(fa as int, fe as int) == entries[k as int]);
            assert(dot_from(acts, entries, k as int) == dot_step(acts, ps, dot_from(acts, entries, k + 1)));
            assert(text@.subrange(parts@[0].0 as int, parts@[0].1 as int) == ps[0]);
            assert(parts@.len() == ps.len());
            if ps.len() > 1 {
                assert(text@.subrange(parts@[1].0 as int, parts@[1].1 as int) == ps[1]);
            }
        }
        let act_id = match parse_field_range(text.as_slice(), parts[0].0, parts[0].1) {
            Some(a) => a,
            None => return None,
        };
        let r = match find_act_type(&cfg.buff_act, act_id) {
            Some(r) => r,
            None => return None,
        };
        match dot_kind(&cfg.buff_act, r) {
            Some(kind) => {
                if parts.len() < 2 {
                    return None;
                }
                match parse_field_range(text.as_slice(), parts[1].0, parts[1].1) {
                    None => return None,
                    Some(p) => {
                        if p > 0 {
                            return Some((kind, p));
                        }
                    },
                }
            },
            None => {},
        }
        k += 1;
    }
    None
}

} // verus!
