//! Allies that watch for channelled skills, gathered at battle start: an
//! attacker's passive whose behavior `1#buff#...` adds a buff with an
//! `AttrFromEntity` feature.
use vstd::prelude::*;
use crate::buff_mgr::{act_type_of, find_act_type};
use crate::config::{BattleConfig, SkillEffectRow, buff_row_index, find_buff_row};
use crate::fight::{Fight, FightEntityInfo, attacker_fielded, i64_or, opt_or};
use crate::table::{first_index, lemma_first_index_is, lemma_first_index_none};
use crate::text::{parse_field, parse_field_range, parse_i32, parse_i32_range, split, split_range};

verus! {

/// `(uid, passive skill)` of every ally with a channel-monitoring passive.
#[derive(Debug, Clone)]
pub struct ChannelState {
    pub monitor_triggers: Vec<(i64, i32)>,
}

/// A feature entry whose act (its first field, `0` when unreadable) is of
/// type `AttrFromEntity`.
pub open spec fn attr_from_entity_entry(cfg: BattleConfig, entry: Seq<u8>) -> bool {
    let a = match parse_field(split(entry, 35u8)[0]) {
        Some(a) => a,
        None => 0,
    };
    act_type_of(cfg.buff_act@, a) == "AttrFromEntity"@
}

/// Whether some `|`-separated entry of `features` is of type
/// `AttrFromEntity`.
pub open spec fn has_attr_entry(cfg: BattleConfig, features: Seq<u8>) -> bool {
    exists|e: int| 0 <= e < split(features, 124u8).len() && attr_from_entity_entry(cfg, #[trigger] split(features, 124u8)[e])
}

/// Whether `buff_id` has a feature entry of type `AttrFromEntity`.
pub open spec fn buff_attr_from_entity(cfg: BattleConfig, buff_id: i32) -> bool {
    match buff_row_index(cfg.skill_buff@, buff_id) {
        Some(r) => has_attr_entry(cfg, cfg.skill_buff@[r].features@),
        None => false,
    }
}

/// A behavior `1#buff#...` whose buff has an `AttrFromEntity` feature.
pub open spec fn monitors(cfg: BattleConfig, beh: Seq<u8>) -> bool {
    let parts = split(beh, 35u8);
    &&& beh.len() > 0
    &&& parts[0] == seq![49u8]
    &&& parts.len() > 1
    &&& match parse_i32(parts[1]) {
        Some(b) => buff_attr_from_entity(cfg, b),
        None => false,
    }
}

/// The skill effect row of `id`.
pub open spec fn skill_row(rows: Seq<SkillEffectRow>, id: i32) -> Option<int> {
    first_index(rows, |s: SkillEffectRow| s.id == id)
}

/// One `(uid, passive)` per monitoring behavior among `bs`.
pub open spec fn beh_triggers(cfg: BattleConfig, uid: i64, p: i32, bs: Seq<Vec<u8>>) -> Seq<(i64, i32)>
    decreases bs.len(),
{
    if bs.len() == 0 {
        Seq::empty()
    } else {
        beh_triggers(cfg, uid, p, bs.drop_last()) + if monitors(cfg, bs.last()@) {
            seq![(uid, p)]
        } else {
            Seq::empty()
        }
    }
}

/// The triggers of passive `p` of `uid`.
pub open spec fn passive_triggers(cfg: BattleConfig, uid: i64, p: i32) -> Seq<(i64, i32)> {
    match skill_row(cfg.skill_effect@, p) {
        Some(r) => beh_triggers(cfg, uid, p, cfg.skill_effect@[r].behaviors@),
        None => Seq::empty(),
    }
}

/// The triggers of the passives `ps` of `uid`, in order.
pub open spec fn entity_triggers(cfg: BattleConfig, uid: i64, ps: Seq<i32>) -> Seq<(i64, i32)>
    decreases ps.len(),
{
    if ps.len() == 0 {
        Seq::empty()
    } else {
        entity_triggers(cfg, uid, ps.drop_last()) + passive_triggers(cfg, uid, ps.last())
    }
}

/// The triggers of the entities `es` (uid `0` when absent), in order.
pub open spec fn team_triggers(cfg: BattleConfig, es: Seq<FightEntityInfo>) -> Seq<(i64, i32)>
    decreases es.len(),
{
    if es.len() == 0 {
        Seq::empty()
    } else {
        team_triggers(cfg, es.drop_last()) + entity_triggers(cfg, opt_or(es.last().uid, 0), es.last().passive_skill@)
    }
}

fn act_is_attr_from_entity(cfg: &BattleConfig, act_id: i32) -> (r: bool)
    ensures
        r == (act_type_of(cfg.buff_act@, act_id) == "AttrFromEntity"@),
{
    match find_act_type(&cfg.buff_act, act_id) {
        Some(i) => cfg.buff_act[i].act_type == "AttrFromEntity".to_owned(),
        None => {
            proof {
                reveal_strlit("AttrFromEntity");
                assert(act_type_of(cfg.buff_act@, act_id).len() == 0);
            }
            false
        },
    }
}

fn buff_has_attr_from_entity(cfg: &BattleConfig, buff_id: i32) -> (r: bool)
    ensures
        r == buff_attr_from_entity(*cfg, buff_id),
{
    let row = match find_buff_row(&cfg.skill_buff, buff_id) {
        Some(i) => i,
        None => return false,
    };
    let text = &cfg.skill_buff[row].features;
    let ghost entries = split(text@, 124u8);
    let fields = split_range(text.as_slice(), 0, text.len(), 124u8);
    proof {
        assert(text@.subrange(0, text@.len() as int) =~= text@);
    }
    let mut k: usize = 0;
    while k < fields.len()
        invariant
            entries == split(text@, 124u8),
            row < cfg.skill_buff@.len(),
            text@ == cfg.skill_buff@[row as int].features@,
            buff_row_index(cfg.skill_buff@, buff_id) == Some(row as int),
            fields@.len() == entries.len(),
            forall|i: int| 0 <= i < fields@.len() ==> #[trigger] fields@[i].0 <= fields@[i].1 <= text@.len(),
            forall|i: int| 0 <= i < fields@.len() ==> text@.subrange(#[trigger] fields@[i].0 as int, fields@[i].1 as int) == entries[i],
            k <= fields@.len(),
            forall|i: int| 0 <= i < k ==> !attr_from_entity_entry(*cfg, #[trigger] entries[i]),
        decreases fields@.len() - k,
    {
        let (fa, fe) = fields[k];
        let parts = split_range(text.as_slice(), fa, fe, 35u8);
        proof {
            assert(text@.subrange(fa as int, fe as int) == entries[k as int]);
        }
        let act_id = match parse_field_range(text.as_slice(), parts[0].0, parts[0].1) {
            Some(a) => a,
            None => 0,
        };
        if act_is_attr_from_entity(cfg, act_id) {
            proof {
                assert(attr_from_entity_entry(*cfg, entries[k as int]));
                let es = split(cfg.skill_buff@[row as int].features@, 124u8);
                assert(es == entries);
                assert(0 <= k < es.len());
                assert(attr_from_entity_entry(*cfg, es[k as int]));
                assert(buff_row_index(cfg.skill_buff@, buff_id) == Some(row as int));
                assert(has_attr_entry(*cfg, cfg.skill_buff@[row as int].features@));
            }
            return true;
        }
        k += 1;
    }
    false
}

fn behavior_monitors(cfg: &BattleConfig, beh: &Vec<u8>) -> (r: bool)
    ensures
        r == monitors(*cfg, beh@),
{
    if beh.len() == 0 {
        return false;
    }
    let parts = split_range(beh.as_slice(), 0, beh.len(), 35u8);
    proof {
        assert(beh@.subrange(0, beh@.len() as int) =~= beh@);
    }
    let (a, e) = parts[0];
    let ghost first = split(beh@, 35u8)[0];
    let is_one = e - a == 1 && beh[a] == 49u8;
    proof {
        assert(beh@.subrange(a as int, e as int) == first);
        if e - a == 1 {
            if beh@[a as int] == 49u8 {
                assert(first =~= seq![49u8]);
            } else {
                assert(first[0] == beh@[a as int]);
            }
        } else {
            assert(first.len() != 1);
        }
    }
    if !is_one || parts.len() < 2 {
        return false;
    }
    match parse_i32_range(beh.as_slice(), parts[1].0, parts[1].1) {
        Some(b) => buff_has_attr_from_entity(cfg, b),
        None => false,
    }
}

fn find_skill_row(rows: &Vec<SkillEffectRow>, id: i32) -> (r: Option<usize>)
    ensures
        match r {
            Some(i) => i < rows@.len() && skill_row(rows@, id) == Some(i as int),
            None => skill_row(rows@, id) == None::<int>,
        },
{
    let ghost p = |s: SkillEffectRow| s.id == id;
    let mut i: usize = 0;
    while i < rows.len()
        invariant
            i <= rows@.len(),
            p == (|s: SkillEffectRow| s.id == id),
            forall|j: int| 0 <= j < i ==> !p(#[trigger] rows@[j]),
        decreases rows@.len() - i,
    {
        if rows[i].id == id {
            proof { lemma_first_index_is(rows@, p, i as int); }
            return Some(i);
        }
        i += 1;
    }
    proof { lemma_first_index_none(rows@, p); }
    None
}

impl ChannelState {
    /// No monitoring allies.
    pub fn new() -> (r: Self)
        ensures
            r.monitor_triggers@ == Seq::<(i64, i32)>::empty(),
    {
        ChannelState { monitor_triggers: Vec::new() }
    }

    /// Appends `(uid, passive)` for every monitoring behavior of every
    /// passive of every fielded attacker, in that order.
    pub fn init(&mut self, fight: &Fight, cfg: &BattleConfig)
        ensures
            final(self).monitor_triggers@ == old(self).monitor_triggers@ + team_triggers(*cfg, attacker_fielded(*fight)),
    {
        let attacker = match &fight.attacker {
            Some(a) => a,
            None => {
                proof {
                    assert(old(self).monitor_triggers@ + Seq::<(i64, i32)>::empty() =~= old(self).monitor_triggers@);
                }
                return;
            },
        };
        let es = &attacker.entitys;
        let ghost base = self.monitor_triggers@;
        let mut i: usize = 0;
        while i < es.len()
            invariant
                i <= es@.len(),
                es@ == attacker_fielded(*fight),
                self.monitor_triggers@ == base + team_triggers(*cfg, es@.take(i as int)),
            decreases es@.len() - i,
        {
            let e = &es[i];
            let uid = i64_or(e.uid, 0);
            let ghost before = self.monitor_triggers@;
            let mut j: usize = 0;
            while j < e.passive_skill.len()
                invariant
                    j <= e.passive_skill@.len(),
                    self.monitor_triggers@ == before + entity_triggers(*cfg, uid, e.passive_skill@.take(j as int)),
                decreases e.passive_skill@.len() - j,
            {
                let passive_id = e.passive_skill[j];
                let ghost mid = self.monitor_triggers@;
                match find_skill_row(&cfg.skill_effect, passive_id) {
                    Some(r) => {
                        let bs = &cfg.skill_effect[r].behaviors;
                        let mut b: usize = 0;
                        while b < bs.len()
                            invariant
                                b <= bs@.len(),
                                self.monitor_triggers@ == mid + beh_triggers(*cfg, uid, passive_id, bs@.take(b as int)),
                            decreases bs@.len() - b,
                        {
                            proof {
                                assert(bs@.take(b + 1).drop_last() =~= bs@.take(b as int));
                                assert(bs@.take(b + 1).last() == bs@[b as int]);
                            }
                            if behavior_monitors(cfg, &bs[b]) {
                                self.monitor_triggers.push((uid, passive_id));
                            }
                            proof {
                                assert(self.monitor_triggers@ =~= mid + beh_triggers(
                                    *cfg,
                                    uid,
                                    passive_id,
                                    bs@.take(b + 1),
                                ));
                            }
                            b += 1;
                        }
                        proof {
                            assert(bs@.take(bs@.len() as int) =~= bs@);
                        }
                    },
                    None => {
                        proof {
                            assert(mid + passive_triggers(*cfg, uid, passive_id) =~= mid);
                        }
                    },
                }
                proof {
                    assert(e.passive_skill@.take(j + 1).drop_last() =~= e.passive_skill@.take(j as int));
                    assert(e.passive_skill@.take(j + 1).last() == passive_id);
                    assert(self.monitor_triggers@ =~= before + entity_triggers(
                        *cfg,
                        uid,
                        e.passive_skill@.take(j + 1),
                    ));
                }
                j += 1;
            }
            proof {
                assert(e.passive_skill@.take(e.passive_skill@.len() as int) =~= e.passive_skill@);
                assert(es@.take(i + 1).drop_last() =~= es@.take(i as int));
                assert(es@.take(i + 1).last() == *e);
                assert(self.monitor_triggers@ =~= base + team_triggers(*cfg, es@.take(i + 1)));
            }
            i += 1;
        }
        proof {
            assert(es@.take(es@.len() as int) =~= es@);
        }
    }

    /// Whether some ally monitors channels.
    pub fn is_active(&self) -> (r: bool)
        ensures
            r == (self.monitor_triggers@.len() > 0),
    {
        self.monitor_triggers.len() > 0
    }
}

} // verus!
