//! Sentinel's Hour of Repentance: while channelling, with layers left on
//! her layer counter, she answers certain boss skills; each answer spends
//! one layer.
use vstd::prelude::*;
use crate::buff_mgr::{
    BuffInstance, BuffInstanceView, BuffMgr, BuffMgrView, bucket, bucket_after_add_with_uid, cfg_stacked, new_instance,
    views,
};
use crate::config::BattleConfig;
use crate::fight::{Fight, FightEntityInfo, i32_or, opt_or, team_entities};
use crate::table::{first_index, lemma_first_index, lemma_first_index_is, lemma_first_index_none, max_i32};

verus! {

/// The channel-state buff that gates the answer.
pub const CHANNEL_STATE_BUFF_ID: i32 = 31260131;

/// The layer-counter buff that counts remaining answers.
pub const CHANNEL_LAYER_BUFF_ID: i32 = 31260151;

/// Sentinel's answering skill.
pub const REACTIVE_SKILL_ID: i32 = 31260171;

/// The boss skills she answers.
pub const BOSS_TRIGGER_SKILLS: [i32; 2] = [530000721, 530000752];

/// A layer counter with at least one layer (or count) left.
pub open spec fn has_layer_left(b: BuffInstanceView) -> bool {
    b.buff_id == CHANNEL_LAYER_BUFF_ID && max_i32(max_i32(b.layer, b.stacks), 0) >= 1
}

/// Whether a bucket holds the channel-state buff.
pub open spec fn has_channel_state(s: Seq<BuffInstanceView>) -> bool {
    exists|i: int| 0 <= i < s.len() && s[i].buff_id == CHANNEL_STATE_BUFF_ID
}

/// What an attacker entity contributes: its uid and first usable layer
/// counter when it is alive and channelling.
pub open spec fn holder_of(m: BuffMgrView, e: FightEntityInfo) -> Option<(i64, BuffInstanceView)> {
    match e.uid {
        Some(u) => {
            let s = bucket(m.active, u);
            if opt_or(e.current_hp, 0) > 0 && has_channel_state(s) {
                match first_index(s, |b: BuffInstanceView| has_layer_left(b)) {
                    Some(i) => Some((u, s[i])),
                    None => None,
                }
            } else {
                None
            }
        },
        None => None,
    }
}

/// The channelling holder: the first attacker (fielded, then substitutes)
/// that is alive, holds the channel state and has a usable layer counter.
pub open spec fn holder_in(m: BuffMgrView, es: Seq<FightEntityInfo>) -> Option<(i64, BuffInstanceView)> {
    match first_index(es, |e: FightEntityInfo| holder_of(m, e).is_some()) {
        Some(i) => holder_of(m, es[i]),
        None => None,
    }
}

fn first_layered(buffs: &[BuffInstance]) -> (r: Option<usize>)
    ensures
        match r {
            Some(i) => i < buffs@.len() && first_index(views(buffs@), |b: BuffInstanceView| has_layer_left(b)) == Some(
                i as int,
            ),
            None => first_index(views(buffs@), |b: BuffInstanceView| has_layer_left(b)) == None::<int>,
        },
{
    let ghost s = views(buffs@);
    let ghost p = |b: BuffInstanceView| has_layer_left(b);
    let mut i: usize = 0;
    while i < buffs.len()
        invariant
            s == views(buffs@),
            p == (|b: BuffInstanceView| has_layer_left(b)),
            i <= buffs@.len(),
            forall|j: int| 0 <= j < i ==> !p(#[trigger] s[j]),
        decreases buffs@.len() - i,
    {
        let b = &buffs[i];
        let l = if b.layer < b.stacks { b.stacks } else { b.layer };
        let m = if l < 0 { 0 } else { l };
        if b.buff_id == CHANNEL_LAYER_BUFF_ID && m >= 1 {
            proof { lemma_first_index_is(s, p, i as int); }
            return Some(i);
        }
        i += 1;
    }
    proof { lemma_first_index_none(s, p); }
    None
}

fn holder_of_entity(buff_mgr: &BuffMgr, e: &FightEntityInfo) -> (r: Option<(i64, BuffInstance)>)
    ensures
        match r {
            Some(p) => holder_of(buff_mgr@, *e) == Some((p.0, p.1@)),
            None => holder_of(buff_mgr@, *e).is_none(),
        },
{
    let uid = match e.uid {
        Some(u) => u,
        None => return None,
    };
    if i32_or(e.current_hp, 0) <= 0 || !buff_mgr.has(uid, CHANNEL_STATE_BUFF_ID) {
        return None;
    }
    let buffs = buff_mgr.get(uid);
    match first_layered(buffs) {
        Some(i) => Some((uid, buffs[i].clone())),
        None => None,
    }
}

fn holder_among(buff_mgr: &BuffMgr, es: &Vec<FightEntityInfo>) -> (r: Option<(i64, BuffInstance)>)
    ensures
        match r {
            Some(p) => holder_in(buff_mgr@, es@) == Some((p.0, p.1@)),
            None => holder_in(buff_mgr@, es@).is_none(),
        },
{
    let ghost p = |e: FightEntityInfo| holder_of(buff_mgr@, e).is_some();
    let mut i: usize = 0;
    while i < es.len()
        invariant
            p == (|e: FightEntityInfo| holder_of(buff_mgr@, e).is_some()),
            i <= es@.len(),
            forall|j: int| 0 <= j < i ==> !p(#[trigger] es@[j]),
        decreases es@.len() - i,
    {
        match holder_of_entity(buff_mgr, &es[i]) {
            Some(h) => {
                proof { lemma_first_index_is(es@, p, i as int); }
                return Some(h);
            },
            None => {},
        }
        i += 1;
    }
    proof { lemma_first_index_none(es@, p); }
    None
}

/// The alive attacker channelling Hour of Repentance, with a copy of its
/// layer counter, if any.
pub fn active_holder(fight: &Fight, buff_mgr: &BuffMgr) -> (r: Option<(i64, BuffInstance)>)
    ensures
        match fight.attacker {
            Some(t) => match r {
                Some(p) => holder_in(buff_mgr@, team_entities(t)) == Some((p.0, p.1@)),
                None => holder_in(buff_mgr@, team_entities(t)).is_none(),
            },
            None => r.is_none(),
        },
{
    let attacker = match &fight.attacker {
        Some(a) => a,
        None => return None,
    };
    let ghost es = team_entities(*attacker);
    let ghost p = |e: FightEntityInfo| holder_of(buff_mgr@, e).is_some();
    match holder_among(buff_mgr, &attacker.entitys) {
        Some(h) => {
            proof {
                lemma_first_index(attacker.entitys@, p);
                let i = first_index(attacker.entitys@, p).unwrap();
                assert forall|j: int| 0 <= j < i implies !p(#[trigger] es[j]) by {
                    assert(es[j] == attacker.entitys@[j]);
                }
                assert(es[i] == attacker.entitys@[i]);
                lemma_first_index_is(es, p, i);
            }
            return Some(h);
        },
        None => {},
    }
    let r = holder_among(buff_mgr, &attacker.sub_entitys);
    proof {
        lemma_first_index(attacker.entitys@, p);
        lemma_first_index(attacker.sub_entitys@, p);
        let n = attacker.entitys@.len() as int;
        match first_index(attacker.sub_entitys@, p) {
            Some(k) => {
                assert forall|j: int| 0 <= j < n + k implies !p(#[trigger] es[j]) by {
                    if j < n {
                        assert(es[j] == attacker.entitys@[j]);
                    } else {
                        assert(es[j] == attacker.sub_entitys@[j - n]);
                    }
                }
                assert(es[n + k] == attacker.sub_entitys@[k]);
                lemma_first_index_is(es, p, n + k);
            },
            None => {
                assert forall|j: int| 0 <= j < es.len() implies !p(#[trigger] es[j]) by {
                    if j < n {
                        assert(es[j] == attacker.entitys@[j]);
                    } else {
                        assert(es[j] == attacker.sub_entitys@[j - n]);
                    }
                }
                lemma_first_index_none(es, p);
            },
        }
    }
    r
}

/// The layer and count a layer counter keeps after one answer: a layer is
/// spent when it has layers, else a count (saturating).
pub open spec fn after_answer(b: BuffInstanceView) -> (i32, i32) {
    if b.layer > 0 {
        (b.stacks, (b.layer - 1) as i32)
    } else {
        (if b.stacks == i32::MIN { i32::MIN } else { (b.stacks - 1) as i32 }, 0)
    }
}

/// Spends one layer of `holder_uid`'s layer counter after an answer, by
/// re-adding the counter under its uid with one layer (or count) fewer.
pub fn consume_layer(buff_mgr: &mut BuffMgr, holder_uid: i64, buff: &BuffInstance, cfg: &BattleConfig)
    ensures
        final(buff_mgr).wf() == old(buff_mgr).wf(),
        final(buff_mgr)@ == (BuffMgrView {
            active: old(buff_mgr)@.active.insert(
                holder_uid,
                bucket_after_add_with_uid(
                    bucket(old(buff_mgr)@.active, holder_uid),
                    new_instance(
                        *cfg,
                        buff.uid,
                        buff.buff_id,
                        buff.from_uid,
                        after_answer(buff@).0,
                        after_answer(buff@).1,
                    ),
                    cfg_stacked(*cfg, buff.buff_id),
                ),
            ),
            ..old(buff_mgr)@
        }),
{
    let new_layer = if buff.layer > 0 { buff.layer - 1 } else { 0 };
    let new_stacks = if buff.layer > 0 {
        buff.stacks
    } else if buff.stacks == i32::MIN {
        i32::MIN
    } else {
        buff.stacks - 1
    };
    buff_mgr.add_with_uid(holder_uid, buff.buff_id, buff.from_uid, new_stacks, new_layer, buff.uid, cfg);
}

} // verus!
