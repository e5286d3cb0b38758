//! Empathy: a store of a share of the damage its holder takes, capped at
//! a share of the holder's max hp, mirrored into the common act
//! parameters of the holder's Empathy buff.
use std::collections::HashMap;
use vstd::prelude::*;
use crate::buff_mgr::{
    BuffInstance, BuffInstanceView, BuffMgr, BuffMgrView, bucket, bucket_after_add, cfg_stacked, cfg_type_id,
    first_of_buff, first_of_type, first_of_uid, new_instance, views,
};
use crate::fight::{BuffInfo, Fight, FightEntityInfo, all_entities, collect_all_entities, fold_opt_by_uid, lemma_fold_opt_by_uid_step};
use crate::buff_uid::{BuffUidCounters, spec_advance_lane};
use crate::config::{BattleConfig, BuffActRow, InjuryBankParams, InjuryBankRow, buff_row_index, find_buff_row};
use crate::table::{
    first_index, get_or, lemma_first_index, lemma_first_index_is, lemma_first_index_none, lemma_tdiv_range, max_i32,
    min_i32, read_or_zero, sat_mul, saturating_mul_i32, tdiv,
};
use crate::text::{
    lemma_parse_field_render, lemma_render_avoids, lemma_split_append, lemma_split_single, parse_field, parse_field_range,
    push_i32, render_int, split, split_range,
};

verus! {

/// Index of the injury-bank row of `buff_id`.
pub open spec fn bank_index(cfg: BattleConfig, buff_id: i32) -> Option<int> {
    first_index(cfg.injury_bank@, |r: InjuryBankRow| r.buff_id == buff_id)
}

/// The injury-bank parameters of `buff_id`, if it has any.
pub open spec fn bank_params(cfg: BattleConfig, buff_id: i32) -> Option<InjuryBankParams> {
    match bank_index(cfg, buff_id) {
        Some(i) => Some(cfg.injury_bank@[i].params),
        None => None,
    }
}

/// Whether `buff_id` carries injury-bank parameters.
pub open spec fn has_bank(cfg: BattleConfig, buff_id: i32) -> bool {
    bank_index(cfg, buff_id).is_some()
}

/// Among the first `n` skill buff rows, row `i` has the lowest id of those
/// with injury-bank parameters, and is the first row with that id.
pub open spec fn is_canonical_upto(cfg: BattleConfig, i: int, n: int) -> bool {
    let rows = cfg.skill_buff@;
    &&& 0 <= i < n <= rows.len()
    &&& has_bank(cfg, rows[i].id)
    &&& forall|j: int| 0 <= j < n && has_bank(cfg, #[trigger] rows[j].id) ==> rows[i].id <= rows[j].id
    &&& forall|j: int| 0 <= j < i && has_bank(cfg, #[trigger] rows[j].id) ==> rows[i].id < rows[j].id
}

/// Row `i` is the canonical Empathy buff row.
pub open spec fn is_canonical_row(cfg: BattleConfig, i: int) -> bool {
    is_canonical_upto(cfg, i, cfg.skill_buff@.len() as int)
}

/// The canonical Empathy `(buff id, buff type)`: the lowest-id skill buff
/// with injury-bank parameters, `(0, 0)` when there is none.
pub open spec fn canonical_empathy(cfg: BattleConfig) -> (i32, i32) {
    if exists|i: int| is_canonical_row(cfg, i) {
        let i = choose|i: int| is_canonical_row(cfg, i);
        (cfg.skill_buff@[i].id, cfg.skill_buff@[i].type_id)
    } else {
        (0, 0)
    }
}

/// The Empathy buff type.
pub open spec fn empathy_type(cfg: BattleConfig) -> i32 {
    canonical_empathy(cfg).1
}

/// The Empathy buff a holder gets when it has none.
pub open spec fn empathy_default(cfg: BattleConfig) -> i32 {
    canonical_empathy(cfg).0
}

proof fn lemma_canonical_unique(cfg: BattleConfig, i: int, k: int)
    requires
        is_canonical_row(cfg, i),
        is_canonical_row(cfg, k),
    ensures
        i == k,
{
    let rows = cfg.skill_buff@;
    if i < k {
        assert(rows[k].id <= rows[i].id);
        assert(rows[k].id < rows[i].id);
        assert(rows[i].id <= rows[k].id);
    } else if k < i {
        assert(rows[i].id < rows[k].id);
        assert(rows[k].id <= rows[i].id);
    }
}

fn find_bank(rows: &Vec<InjuryBankRow>, buff_id: i32) -> (r: Option<usize>)
    ensures
        match r {
            Some(i) => i < rows@.len() && first_index(rows@, |x: InjuryBankRow| x.buff_id == buff_id) == Some(i as int),
            None => first_index(rows@, |x: InjuryBankRow| x.buff_id == buff_id) == None::<int>,
        },
{
    let ghost p = |x: InjuryBankRow| x.buff_id == buff_id;
    let mut i: usize = 0;
    while i < rows.len()
        invariant
            i <= rows@.len(),
            forall|j: int| 0 <= j < i ==> !p(#[trigger] rows@[j]),
            p == (|x: InjuryBankRow| x.buff_id == buff_id),
        decreases rows@.len() - i,
    {
        if rows[i].buff_id == buff_id {
            proof { lemma_first_index_is(rows@, p, i as int); }
            return Some(i);
        }
        i += 1;
    }
    proof { lemma_first_index_none(rows@, p); }
    None
}

/// The injury-bank parameters of `buff_id`, if it has any.
pub fn buff_get_injury_bank_params(cfg: &BattleConfig, buff_id: i32) -> (r: Option<InjuryBankParams>)
    ensures
        r == bank_params(*cfg, buff_id),
{
    match find_bank(&cfg.injury_bank, buff_id) {
        Some(i) => Some(cfg.injury_bank[i].params),
        None => None,
    }
}

fn canonical_empathy_buff(cfg: &BattleConfig) -> (r: (i32, i32))
    ensures
        r == canonical_empathy(*cfg),
{
    let rows = &cfg.skill_buff;
    let mut best: Option<usize> = None;
    let mut k: usize = 0;
    while k < rows.len()
        invariant
            k <= rows@.len(),
            rows@ == cfg.skill_buff@,
            match best {
                Some(b) => is_canonical_upto(*cfg, b as int, k as int),
                None => forall|j: int| 0 <= j < k ==> !has_bank(*cfg, #[trigger] rows@[j].id),
            },
        decreases rows@.len() - k,
    {
        let id = rows[k].id;
        if buff_get_injury_bank_params(cfg, id).is_some() {
            match best {
                None => {
                    best = Some(k);
                },
                Some(b) => {
                    if id < rows[b].id {
                        best = Some(k);
                    }
                },
            }
        }
        k += 1;
    }
    match best {
        Some(b) => {
            proof {
                assert(is_canonical_row(*cfg, b as int));
                let c = choose|i: int| is_canonical_row(*cfg, i);
                lemma_canonical_unique(*cfg, b as int, c);
            }
            (rows[b].id, rows[b].type_id)
        },
        None => {
            proof {
                assert forall|i: int| !is_canonical_row(*cfg, i) by {
                    if 0 <= i < rows@.len() {
                        assert(!has_bank(*cfg, rows@[i].id));
                    }
                }
            }
            (0, 0)
        },
    }
}

/// The Empathy buff type: the type of the canonical Empathy buff.
pub fn empathy_type_id(cfg: &BattleConfig) -> (r: i32)
    ensures
        r == empathy_type(*cfg),
{
    canonical_empathy_buff(cfg).1
}

/// The canonical Empathy buff: the lowest-id buff with injury-bank
/// parameters, given to a holder that has none yet.
pub fn empathy_default_buff_id(cfg: &BattleConfig) -> (r: i32)
    ensures
        r == empathy_default(*cfg),
{
    canonical_empathy_buff(cfg).0
}

/// The id of the first `InjuryBank` buff act, `0` when there is none.
pub open spec fn injury_bank_act(cfg: BattleConfig) -> i32 {
    match first_index(cfg.buff_act@, |a: BuffActRow| a.act_type@ == "InjuryBank"@) {
        Some(i) => cfg.buff_act@[i].id,
        None => 0,
    }
}

fn injury_bank_act_id(cfg: &BattleConfig) -> (r: i32)
    ensures
        r == injury_bank_act(*cfg),
{
    let ghost p = |a: BuffActRow| a.act_type@ == "InjuryBank"@;
    let acts = &cfg.buff_act;
    let mut i: usize = 0;
    while i < acts.len()
        invariant
            i <= acts@.len(),
            acts@ == cfg.buff_act@,
            forall|j: int| 0 <= j < i ==> !p(#[trigger] acts@[j]),
            p == (|a: BuffActRow| a.act_type@ == "InjuryBank"@),
        decreases acts@.len() - i,
    {
        if acts[i].act_type == "InjuryBank".to_owned() {
            proof { lemma_first_index_is(acts@, p, i as int); }
            return acts[i].id;
        }
        i += 1;
    }
    proof { lemma_first_index_none(acts@, p); }
    0
}

/// Whether `buff_id` is of the Empathy buff type.
pub open spec fn is_empathy(cfg: BattleConfig, buff_id: i32) -> bool {
    match buff_row_index(cfg.skill_buff@, buff_id) {
        Some(i) => cfg.skill_buff@[i].type_id == empathy_type(cfg),
        None => false,
    }
}

fn is_empathy_buff(cfg: &BattleConfig, buff_id: i32) -> (r: bool)
    ensures
        r == is_empathy(*cfg, buff_id),
{
    match find_buff_row(&cfg.skill_buff, buff_id) {
        Some(i) => cfg.skill_buff[i].type_id == empathy_type_id(cfg),
        None => false,
    }
}

/// The injury-bank parameters in force for `holder`: those of its Empathy
/// buff, else those of the canonical Empathy buff.
pub open spec fn active_params(m: BuffMgrView, cfg: BattleConfig, holder: i64) -> Option<InjuryBankParams> {
    let fallback = bank_params(cfg, empathy_default(cfg));
    match first_of_type(bucket(m.active, holder), empathy_type(cfg)) {
        Some(i) => match bank_params(cfg, bucket(m.active, holder)[i].buff_id) {
            Some(p) => Some(p),
            None => fallback,
        },
        None => fallback,
    }
}

fn active_injury_bank_params(mgr: &BuffMgr, cfg: &BattleConfig, holder_uid: i64) -> (r: Option<InjuryBankParams>)
    ensures
        r == active_params(mgr@, *cfg, holder_uid),
{
    let found = match mgr.find_instance_by_type_id(holder_uid, empathy_type_id(cfg)) {
        Some(inst) => buff_get_injury_bank_params(cfg, inst.buff_id),
        None => None,
    };
    match found {
        Some(p) => Some(p),
        None => buff_get_injury_bank_params(cfg, empathy_default_buff_id(cfg)),
    }
}

/// `permille` thousandths of `max_hp` (floored at zero), the product
/// saturating, the quotient truncated.
pub open spec fn permille_of(max_hp: i32, permille: i32) -> i32 {
    tdiv(sat_mul(max_i32(max_hp, 0), permille) as int, 1000) as i32
}

fn scale_permille(max_hp: i32, permille: i32) -> (r: i32)
    ensures
        r == permille_of(max_hp, permille),
{
    let hp = if max_hp < 0 { 0 } else { max_hp };
    saturating_mul_i32(hp, permille) / 1000
}

/// The storage cap of `holder` with `max_hp`.
pub open spec fn storage_cap_of(m: BuffMgrView, cfg: BattleConfig, holder: i64, max_hp: i32) -> i32 {
    permille_of(
        max_hp,
        match active_params(m, cfg, holder) {
            Some(p) => p.storage_cap_permille,
            None => 0,
        },
    )
}

/// The storage step at which Insight III heals, when positive.
pub open spec fn storage_threshold_of(m: BuffMgrView, cfg: BattleConfig, holder: i64, max_hp: i32) -> Option<i32> {
    match active_params(m, cfg, holder) {
        Some(p) => {
            let t = permille_of(max_hp, max_i32(p.storage_threshold_permille, 0));
            if t > 0 { Some(t) } else { None }
        },
        None => None,
    }
}

/// The Insight III heal of `holder` with `max_hp`.
pub open spec fn heal_amount_of(m: BuffMgrView, cfg: BattleConfig, holder: i64, max_hp: i32) -> i32 {
    permille_of(
        max_hp,
        match active_params(m, cfg, holder) {
            Some(p) => p.heal_permille,
            None => 0,
        },
    )
}

/// The common act parameters recording `current` out of `cap`:
/// `act#current#cap`, both floored at zero.
pub open spec fn empathy_params(cfg: BattleConfig, current: i32, cap: i32) -> Seq<u8> {
    render_int(injury_bank_act(cfg) as int) + seq![35u8] + render_int(max_i32(current, 0) as int) + seq![35u8]
        + render_int(max_i32(cap, 0) as int)
}

/// The stored total recorded in `params`: the second `#` field, when the
/// first names the injury-bank act.
pub open spec fn empathy_value_of(cfg: BattleConfig, params: Seq<u8>) -> Option<i32> {
    let parts = split(params, 35u8);
    match parse_field(parts[0]) {
        Some(a) => if a == injury_bank_act(cfg) && parts.len() > 1 { parse_field(parts[1]) } else { None },
        None => None,
    }
}

fn build_empathy_params(cfg: &BattleConfig, current: i32, cap: i32) -> (r: Vec<u8>)
    ensures
        r@ == empathy_params(*cfg, current, cap),
{
    let mut out: Vec<u8> = Vec::new();
    push_i32(&mut out, injury_bank_act_id(cfg));
    out.push(35u8);
    push_i32(&mut out, if current < 0 { 0 } else { current });
    out.push(35u8);
    push_i32(&mut out, if cap < 0 { 0 } else { cap });
    proof {
        assert(out@ =~= empathy_params(*cfg, current, cap));
    }
    out
}

fn parse_empathy_value(cfg: &BattleConfig, params: &[u8]) -> (r: Option<i32>)
    ensures
        r == empathy_value_of(*cfg, params@),
{
    let parts = split_range(params, 0, params.len(), 35u8);
    proof {
        assert(params@.subrange(0, params@.len() as int) =~= params@);
    }
    let act = match parse_field_range(params, parts[0].0, parts[0].1) {
        Some(a) => a,
        None => return None,
    };
    if act != injury_bank_act_id(cfg) || parts.len() < 2 {
        return None;
    }
    parse_field_range(params, parts[1].0, parts[1].1)
}

/// Reading back the parameters Empathy writes gives the stored total.
pub proof fn law_empathy_params_round_trip(cfg: BattleConfig, current: i32, cap: i32)
    ensures
        empathy_value_of(cfg, empathy_params(cfg, current, cap)) == Some(max_i32(current, 0)),
{
    let a = render_int(injury_bank_act(cfg) as int);
    let b = render_int(max_i32(current, 0) as int);
    let c = render_int(max_i32(cap, 0) as int);
    lemma_render_avoids(injury_bank_act(cfg), 35u8);
    lemma_render_avoids(max_i32(current, 0), 35u8);
    lemma_render_avoids(max_i32(cap, 0), 35u8);
    lemma_split_single(a, 35u8);
    lemma_split_append(a, 35u8, b);
    lemma_split_append(a + seq![35u8] + b, 35u8, c);
    lemma_parse_field_render(injury_bank_act(cfg));
    lemma_parse_field_render(max_i32(current, 0));
    let parts = split(empathy_params(cfg, current, cap), 35u8);
    assert(parts == seq![a, b, c]);
}

/// The manager after making sure `target` has an Empathy buff: unchanged
/// when it has one, else with the canonical Empathy buff added.
pub open spec fn mgr_after_ensure(m: BuffMgrView, cfg: BattleConfig, u: BuffUidCounters, target: i64) -> BuffMgrView {
    match first_of_type(bucket(m.active, target), empathy_type(cfg)) {
        Some(_) => m,
        None => BuffMgrView {
            active: m.active.insert(
                target,
                bucket_after_add(
                    bucket(m.active, target),
                    new_instance(cfg, spec_advance_lane(u, 2).lane_value(), empathy_default(cfg), target, 0, 0),
                    cfg_stacked(cfg, empathy_default(cfg)),
                ),
            ),
            ..m
        },
    }
}

/// The uid counters after making sure `target` has an Empathy buff.
pub open spec fn uids_after_ensure(m: BuffMgrView, cfg: BattleConfig, u: BuffUidCounters, target: i64) -> BuffUidCounters {
    match first_of_type(bucket(m.active, target), empathy_type(cfg)) {
        Some(_) => u,
        None => spec_advance_lane(u, 2),
    }
}

/// The `(buff id, buff uid)` of the Empathy buff of `target`, or the
/// canonical buff with uid `0` when it has none.
pub open spec fn empathy_buff_of(m: BuffMgrView, cfg: BattleConfig, target: i64) -> (i32, i64) {
    match first_of_type(bucket(m.active, target), empathy_type(cfg)) {
        Some(i) => (bucket(m.active, target)[i].buff_id, bucket(m.active, target)[i].uid),
        None => (empathy_default(cfg), 0),
    }
}

/// The manager after writing `params` into the instance `buff_uid` on
/// `target`, when there is one.
pub open spec fn with_params(m: BuffMgrView, target: i64, buff_uid: i64, params: Seq<u8>) -> BuffMgrView {
    match first_of_uid(bucket(m.active, target), buff_uid) {
        Some(i) => BuffMgrView {
            active: m.active.insert(target, m.active[target].update(i, BuffInstanceView { params: params, ..m.active[target][i] })),
            ..m
        },
        None => m,
    }
}

/// The table and the holder's bucket agree on the Empathy buff: the
/// default Empathy buff has the Empathy type in the table, and every
/// instance of it the holder carries has that type too.
pub open spec fn empathy_rows_agree(m: BuffMgrView, cfg: BattleConfig, target: i64) -> bool {
    &&& cfg_type_id(cfg, empathy_default(cfg)) == empathy_type(cfg)
    &&& forall|i: int|
        0 <= i < bucket(m.active, target).len() && (#[trigger] bucket(m.active, target)[i]).buff_id == empathy_default(
            cfg,
        ) ==> bucket(m.active, target)[i].type_id == empathy_type(cfg)
}

proof fn lemma_has_type<T>(s: Seq<BuffInstanceView>, t: i32, i: int)
    requires
        0 <= i < s.len(),
        s[i].type_id == t,
    ensures
        first_of_type(s, t) is Some,
{
    lemma_first_index(s, |b: BuffInstanceView| b.type_id == t);
}

/// Making sure the holder has an Empathy buff and then writing its
/// parameters leaves an instance of the Empathy type on it.
proof fn lemma_ensure_leaves_empathy(m: BuffMgrView, cfg: BattleConfig, u: BuffUidCounters, target: i64, buff_uid: i64, params: Seq<u8>)
    requires
        empathy_rows_agree(m, cfg, target),
    ensures
        first_of_type(
            bucket(with_params(mgr_after_ensure(m, cfg, u, target), target, buff_uid, params).active, target),
            empathy_type(cfg),
        ) is Some,
{
    let tt = empathy_type(cfg);
    let b = bucket(m.active, target);
    let m2 = mgr_after_ensure(m, cfg, u, target);
    let b2 = bucket(m2.active, target);
    let k: int = match first_of_type(b, tt) {
        Some(i) => {
            lemma_first_index(b, |x: BuffInstanceView| x.type_id == tt);
            i
        },
        None => {
            let inst = new_instance(cfg, spec_advance_lane(u, 2).lane_value(), empathy_default(cfg), target, 0, 0);
            if cfg_stacked(cfg, empathy_default(cfg)) {
                b.len() as int
            } else {
                match first_of_buff(b, inst.buff_id) {
                    Some(j) => {
                        lemma_first_index(b, |x: BuffInstanceView| x.buff_id == inst.buff_id);
                        j
                    },
                    None => b.len() as int,
                }
            }
        },
    };
    assert(0 <= k < b2.len() && b2[k].type_id == tt);
    let m3 = with_params(m2, target, buff_uid, params);
    let b3 = bucket(m3.active, target);
    match first_of_uid(b2, buff_uid) {
        Some(j) => {
            lemma_first_index(b2, |x: BuffInstanceView| x.uid == buff_uid);
            assert(b3 == b2.update(j, BuffInstanceView { params: params, ..b2[j] }));
            assert(b3[k].type_id == tt);
            lemma_has_type::<int>(b3, tt, k);
        },
        None => {
            lemma_has_type::<int>(b3, tt, k);
        },
    }
}

fn ensure_empathy_buff(buff_mgr: &mut BuffMgr, cfg: &BattleConfig, uids: &mut BuffUidCounters, target_uid: i64) -> (r: (
    i32,
    i64,
))
    ensures
        final(buff_mgr).wf() == old(buff_mgr).wf(),
        final(buff_mgr)@ == mgr_after_ensure(old(buff_mgr)@, *cfg, *old(uids), target_uid),
        *final(uids) == uids_after_ensure(old(buff_mgr)@, *cfg, *old(uids), target_uid),
        r == empathy_buff_of(final(buff_mgr)@, *cfg, target_uid),
{
    let type_id = empathy_type_id(cfg);
    match buff_mgr.find_instance_by_type_id(target_uid, type_id) {
        Some(existing) => {
            return (existing.buff_id, existing.uid);
        },
        None => {},
    }
    let default_buff = empathy_default_buff_id(cfg);
    buff_mgr.add(target_uid, default_buff, target_uid, 0, 0, cfg, uids);
    match buff_mgr.find_instance_by_type_id(target_uid, type_id) {
        Some(b) => (b.buff_id, b.uid),
        None => (default_buff, 0),
    }
}

/// The stored total after adding `amount` to `current`: both floored at
/// zero, the sum saturating, the result capped at `cap`.
pub open spec fn stored_after(current: i32, amount: i32, cap: i32) -> i32 {
    let c = max_i32(current, 0);
    let a = max_i32(amount, 0);
    min_i32(if c + a > i32::MAX { i32::MAX } else { (c + a) as i32 }, cap)
}

/// The number of `threshold` steps passed going from `current` to `next`
/// (never negative), none without a threshold.
pub open spec fn crossed_between(threshold: Option<i32>, current: i32, next: i32) -> i32 {
    match threshold {
        Some(t) => {
            let d = tdiv(next as int, t as int) - tdiv(current as int, t as int);
            if d > 0 { d as i32 } else { 0 }
        },
        None => 0,
    }
}

/// Index of the last Empathy instance of a bucket.
pub open spec fn last_empathy(cfg: BattleConfig, s: Seq<BuffInstanceView>) -> Option<int>
    decreases s.len(),
{
    if s.len() == 0 {
        None
    } else if is_empathy(cfg, s.last().buff_id) {
        Some(s.len() - 1)
    } else {
        last_empathy(cfg, s.drop_last())
    }
}

/// The total a bucket records: that in the parameters of its last Empathy
/// instance, when positive.
pub open spec fn bucket_total(cfg: BattleConfig, s: Seq<BuffInstanceView>) -> Option<i32> {
    match last_empathy(cfg, s) {
        Some(i) => {
            let v = match empathy_value_of(cfg, s[i].params) {
                Some(v) => v,
                None => 0,
            };
            if v > 0 { Some(v) } else { None }
        },
        None => None,
    }
}

/// The totals recorded by the buffs of a manager, per holder.
pub open spec fn synced_totals(cfg: BattleConfig, m: Map<i64, Seq<BuffInstanceView>>) -> Map<i64, i32> {
    Map::new(
        |k: i64| m.contains_key(k) && bucket_total(cfg, m[k]).is_some(),
        |k: i64| bucket_total(cfg, m[k]).unwrap(),
    )
}

/// A snapshot buff of the Empathy type.
pub open spec fn is_empathy_info(cfg: BattleConfig, b: BuffInfo) -> bool {
    match b.buff_id {
        Some(id) => is_empathy(cfg, id),
        None => false,
    }
}

/// The total a snapshot entity records: that in the parameters of its first
/// Empathy buff (effective buffs first), `0` when none can be read.
pub open spec fn entity_empathy(cfg: BattleConfig, e: FightEntityInfo) -> i32 {
    let bs = e.buffs@ + e.no_effect_buffs@;
    match first_index(bs, |b: BuffInfo| is_empathy_info(cfg, b)) {
        Some(i) => match bs[i].act_common_params {
            Some(p) => match empathy_value_of(cfg, p@) {
                Some(v) => v,
                None => 0,
            },
            None => 0,
        },
        None => 0,
    }
}

/// The positive total of a snapshot entity, if any.
pub open spec fn sel_empathy(cfg: BattleConfig) -> spec_fn(FightEntityInfo) -> Option<i32> {
    |e: FightEntityInfo| if entity_empathy(cfg, e) > 0 { Some(entity_empathy(cfg, e)) } else { None }
}

fn entity_empathy_value(cfg: &BattleConfig, e: &FightEntityInfo) -> (r: i32)
    ensures
        r == entity_empathy(*cfg, *e),
{
    let ghost bs = e.buffs@ + e.no_effect_buffs@;
    let ghost p = |b: BuffInfo| is_empathy_info(*cfg, b);
    let n = e.buffs.len();
    let mut j: usize = 0;
    while j < n
        invariant
            n == e.buffs@.len(),
            bs == e.buffs@ + e.no_effect_buffs@,
            p == (|b: BuffInfo| is_empathy_info(*cfg, b)),
            j <= n,
            forall|k: int| 0 <= k < j ==> !p(#[trigger] bs[k]),
        decreases n - j,
    {
        let b = &e.buffs[j];
        proof { assert(*b == bs[j as int]); }
        if let Some(id) = b.buff_id {
            if is_empathy_buff(cfg, id) {
                proof { lemma_first_index_is(bs, p, j as int); }
                return match &b.act_common_params {
                    Some(params) => match parse_empathy_value(cfg, params.as_slice()) {
                        Some(v) => v,
                        None => 0,
                    },
                    None => 0,
                };
            }
        }
        j += 1;
    }
    let mut j: usize = 0;
    while j < e.no_effect_buffs.len()
        invariant
            n == e.buffs@.len(),
            bs == e.buffs@ + e.no_effect_buffs@,
            p == (|b: BuffInfo| is_empathy_info(*cfg, b)),
            j <= e.no_effect_buffs@.len(),
            forall|k: int| 0 <= k < n + j ==> !p(#[trigger] bs[k]),
        decreases e.no_effect_buffs@.len() - j,
    {
        let b = &e.no_effect_buffs[j];
        proof { assert(*b == bs[n + j]); }
        if let Some(id) = b.buff_id {
            if is_empathy_buff(cfg, id) {
                proof { lemma_first_index_is(bs, p, n + j); }
                return match &b.act_common_params {
                    Some(params) => match parse_empathy_value(cfg, params.as_slice()) {
                        Some(v) => v,
                        None => 0,
                    },
                    None => 0,
                };
            }
        }
        j += 1;
    }
    proof { lemma_first_index_none(bs, p); }
    0
}

fn bucket_total_of(cfg: &BattleConfig, buffs: &[BuffInstance]) -> (r: Option<i32>)
    ensures
        r == bucket_total(*cfg, views(buffs@)),
{
    let ghost s = views(buffs@);
    let mut last: Option<usize> = None;
    let mut j: usize = 0;
    while j < buffs.len()
        invariant
            s == views(buffs@),
            j <= buffs@.len(),
            match last {
                Some(i) => i < j && last_empathy(*cfg, s.take(j as int)) == Some(i as int),
                None => last_empathy(*cfg, s.take(j as int)) == None::<int>,
            },
        decreases buffs@.len() - j,
    {
        proof {
            assert(s.take(j + 1).drop_last() =~= s.take(j as int));
            assert(s.take(j + 1).last() == s[j as int]);
        }
        if is_empathy_buff(cfg, buffs[j].buff_id) {
            last = Some(j);
        }
        j += 1;
    }
    proof { assert(s.take(buffs@.len() as int) =~= s); }
    match last {
        Some(i) => {
            let v = match parse_empathy_value(cfg, buffs[i].act_common_params.as_slice()) {
                Some(v) => v,
                None => 0,
            };
            if v > 0 {
                Some(v)
            } else {
                None
            }
        },
        None => None,
    }
}

/// Empathy totals per holder uid.
#[derive(Debug)]
pub struct EmpathyState {
    values: HashMap<i64, i32>,
}

impl View for EmpathyState {
    type V = Map<i64, i32>;

    closed spec fn view(&self) -> Map<i64, i32> {
        self.values@
    }
}

impl EmpathyState {
    /// No holder has Empathy.
    pub fn new() -> (r: Self)
        ensures
            r@ == Map::<i64, i32>::empty(),
    {
        EmpathyState { values: HashMap::new() }
    }

    /// Reads each entity's total from the parameters of its Empathy buff in
    /// the snapshot; later entities with a positive total win.
    pub fn init(&mut self, fight: &Fight, cfg: &BattleConfig)
        ensures
            final(self)@ == fold_opt_by_uid(all_entities(*fight), Map::empty(), sel_empathy(*cfg)),
    {
        self.values.clear();
        let es = collect_all_entities(fight);
        let ghost s = all_entities(*fight);
        let mut i: usize = 0;
        while i < es.len()
            invariant
                es@.len() == s.len(),
                forall|j: int| 0 <= j < es@.len() ==> *es@[j] == s[j],
                i <= es@.len(),
                self@ == fold_opt_by_uid(s.take(i as int), Map::empty(), sel_empathy(*cfg)),
            decreases es@.len() - i,
        {
            let e = es[i];
            proof {
                lemma_fold_opt_by_uid_step(s, i as int, Map::empty(), sel_empathy(*cfg));
            }
            if let Some(uid) = e.uid {
                let value = entity_empathy_value(cfg, e);
                if value > 0 {
                    self.values.insert(uid, value);
                }
            }
            i += 1;
        }
        proof {
            assert(s.take(s.len() as int) =~= s);
        }
    }

    /// Replaces every total with the one recorded in the parameters of the
    /// holder's last Empathy buff in `buff_mgr`; holders without a positive
    /// recorded total are dropped.
    pub fn sync_from_buff_mgr(&mut self, buff_mgr: &BuffMgr, cfg: &BattleConfig)
        ensures
            final(self)@ == synced_totals(*cfg, buff_mgr@.active),
    {
        let ks = buff_mgr.active_keys();
        let ghost m = buff_mgr@.active;
        let mut out: HashMap<i64, i32> = HashMap::new();
        let mut i: usize = 0;
        while i < ks.len()
            invariant
                m == buff_mgr@.active,
                ks@.no_duplicates(),
                ks@.to_set() == m.dom(),
                i <= ks@.len(),
                forall|k: i64| #[trigger] out@.contains_key(k) <==> (ks@.take(i as int).contains(k) && bucket_total(
                    *cfg,
                    m[k],
                ).is_some()),
                forall|k: i64| #[trigger] out@.contains_key(k) ==> out@[k] == bucket_total(*cfg, m[k]).unwrap(),
            decreases ks@.len() - i,
        {
            let k = ks[i];
            proof {
                assert(ks@.to_set().contains(k));
                assert(m.contains_key(k));
            }
            let buffs = buff_mgr.get(k);
            let t = bucket_total_of(cfg, buffs);
            proof {
                assert(ks@.take(i + 1) =~= ks@.take(i as int).push(k));
                assert(!ks@.take(i as int).contains(k)) by {
                    if ks@.take(i as int).contains(k) {
                        let j = choose|j: int| 0 <= j < i && ks@.take(i as int)[j] == k;
                        assert(ks@[j] == ks@[i as int]);
                    }
                }
            }
            let ghost before = out@;
            match t {
                Some(v) => {
                    out.insert(k, v);
                },
                None => {},
            }
            proof {
                assert forall|k2: i64| #[trigger] out@.contains_key(k2) <==> (ks@.take(i + 1).contains(k2)
                    && bucket_total(*cfg, m[k2]).is_some()) by {
                    if k2 != k {
                        assert(ks@.take(i + 1).contains(k2) == ks@.take(i as int).contains(k2));
                        assert(out@.contains_key(k2) == before.contains_key(k2));
                    } else {
                        assert(ks@.take(i + 1)[i as int] == k);
                    }
                }
            }
            i += 1;
        }
        proof {
            assert(ks@.take(ks@.len() as int) =~= ks@);
            assert forall|k: i64| ks@.contains(k) == m.contains_key(k) by {
                assert(ks@.to_set().contains(k) == ks@.contains(k));
            }
            assert(out@ =~= synced_totals(*cfg, m));
        }
        self.values = out;
    }

    /// The share of `damage` that is stored: a tenth, truncated, of the
    /// damage floored at zero.
    pub fn compute_storage_amount(damage: i32) -> (r: i32)
        ensures
            r == max_i32(damage, 0) / 10,
    {
        let d = if damage < 0 { 0 } else { damage };
        d / 10
    }

    /// The most Empathy `holder_uid` can store with `max_hp`.
    pub fn storage_cap(buff_mgr: &BuffMgr, cfg: &BattleConfig, holder_uid: i64, max_hp: i32) -> (r: i32)
        ensures
            r == storage_cap_of(buff_mgr@, *cfg, holder_uid, max_hp),
    {
        let permille = match active_injury_bank_params(buff_mgr, cfg, holder_uid) {
            Some(p) => p.storage_cap_permille,
            None => 0,
        };
        scale_permille(max_hp, permille)
    }

    /// The stored Empathy of `uid`, `0` when none.
    pub fn current(&self, uid: i64) -> (r: i32)
        ensures
            r == get_or(self@, uid, 0),
    {
        read_or_zero(&self.values, uid)
    }

    /// Adds `amount` of Empathy to `kakania_uid` (capped), writes the new
    /// total into its Empathy buff (adding the canonical buff when it has
    /// none) and returns the new total with the number of Insight III
    /// storage steps crossed.
    pub fn apply_storage_with_threshold(
        &mut self,
        buff_mgr: &mut BuffMgr,
        cfg: &BattleConfig,
        uids: &mut BuffUidCounters,
        kakania_uid: i64,
        amount: i32,
        caster_max_hp: i32,
    ) -> (r: (i32, i32))
        ensures
            ({
                let cap = storage_cap_of(old(buff_mgr)@, *cfg, kakania_uid, caster_max_hp);
                let cur = max_i32(get_or(old(self)@, kakania_uid, 0), 0);
                let next = stored_after(get_or(old(self)@, kakania_uid, 0), amount, cap);
                let m2 = mgr_after_ensure(old(buff_mgr)@, *cfg, *old(uids), kakania_uid);
                &&& final(self)@ == old(self)@.insert(kakania_uid, next)
                &&& *final(uids) == uids_after_ensure(old(buff_mgr)@, *cfg, *old(uids), kakania_uid)
                &&& final(buff_mgr)@ == with_params(
                    m2,
                    kakania_uid,
                    empathy_buff_of(m2, *cfg, kakania_uid).1,
                    empathy_params(*cfg, next, cap),
                )
                &&& r == (
                    next,
                    crossed_between(
                        storage_threshold_of(final(buff_mgr)@, *cfg, kakania_uid, caster_max_hp),
                        cur,
                        next,
                    ),
                )
                &&& r.0 <= cap
            }),
            empathy_rows_agree(old(buff_mgr)@, *cfg, kakania_uid) ==> first_of_type(
                bucket(final(buff_mgr)@.active, kakania_uid),
                empathy_type(*cfg),
            ) is Some,
            final(buff_mgr).wf() == old(buff_mgr).wf(),
    {
        let cap = Self::storage_cap(buff_mgr, cfg, kakania_uid, caster_max_hp);
        let c = self.current(kakania_uid);
        let current = if c < 0 { 0 } else { c };
        let a = if amount < 0 { 0 } else { amount };
        let sum = if current > i32::MAX - a { i32::MAX } else { current + a };
        let next = if cap < sum { cap } else { sum };
        self.values.insert(kakania_uid, next);
        let (_buff_id, buff_uid) = ensure_empathy_buff(buff_mgr, cfg, uids, kakania_uid);
        let params = build_empathy_params(cfg, next, cap);
        let _ = buff_mgr.set_instance_act_common_params(kakania_uid, buff_uid, params);
        proof {
            if empathy_rows_agree(old(buff_mgr)@, *cfg, kakania_uid) {
                lemma_ensure_leaves_empathy(old(buff_mgr)@, *cfg, *old(uids), kakania_uid, buff_uid, empathy_params(*cfg, next, cap));
            }
        }
        let crossed = match Self::storage_threshold(buff_mgr, cfg, kakania_uid, caster_max_hp) {
            Some(t) => {
                proof {
                    lemma_tdiv_range(next as int, t as int);
                    lemma_tdiv_range(current as int, t as int);
                }
                let d: i64 = (next / t) as i64 - (current / t) as i64;
                if d > 0 {
                    d as i32
                } else {
                    0
                }
            },
            None => 0,
        };
        (next, crossed)
    }

    /// Adds `amount` of Empathy to `kakania_uid` as
    /// `apply_storage_with_threshold` does; returns the new total.
    pub fn apply_storage(
        &mut self,
        buff_mgr: &mut BuffMgr,
        cfg: &BattleConfig,
        uids: &mut BuffUidCounters,
        kakania_uid: i64,
        amount: i32,
        caster_max_hp: i32,
    ) -> (r: i32)
        ensures
            ({
                let cap = storage_cap_of(old(buff_mgr)@, *cfg, kakania_uid, caster_max_hp);
                let next = stored_after(get_or(old(self)@, kakania_uid, 0), amount, cap);
                let m2 = mgr_after_ensure(old(buff_mgr)@, *cfg, *old(uids), kakania_uid);
                &&& final(self)@ == old(self)@.insert(kakania_uid, next)
                &&& *final(uids) == uids_after_ensure(old(buff_mgr)@, *cfg, *old(uids), kakania_uid)
                &&& final(buff_mgr)@ == with_params(
                    m2,
                    kakania_uid,
                    empathy_buff_of(m2, *cfg, kakania_uid).1,
                    empathy_params(*cfg, next, cap),
                )
                &&& r == next
            }),
            empathy_rows_agree(old(buff_mgr)@, *cfg, kakania_uid) ==> first_of_type(
                bucket(final(buff_mgr)@.active, kakania_uid),
                empathy_type(*cfg),
            ) is Some,
            final(buff_mgr).wf() == old(buff_mgr).wf(),
    {
        self.apply_storage_with_threshold(buff_mgr, cfg, uids, kakania_uid, amount, caster_max_hp).0
    }

    /// Sets the stored Empathy of `target_uid` to `current_total` (floored
    /// at zero, capped; dropped when not positive) and writes it into its
    /// Empathy buff, adding the canonical buff when it has none.
    pub fn sync_buff_state(
        &mut self,
        buff_mgr: &mut BuffMgr,
        cfg: &BattleConfig,
        uids: &mut BuffUidCounters,
        target_uid: i64,
        current_total: i32,
        target_max_hp: i32,
    )
        ensures
            ({
                let cap = storage_cap_of(old(buff_mgr)@, *cfg, target_uid, target_max_hp);
                let total = min_i32(max_i32(current_total, 0), cap);
                let m2 = mgr_after_ensure(old(buff_mgr)@, *cfg, *old(uids), target_uid);
                &&& final(self)@ == (if total > 0 {
                    old(self)@.insert(target_uid, total)
                } else {
                    old(self)@.remove(target_uid)
                })
                &&& *final(uids) == uids_after_ensure(old(buff_mgr)@, *cfg, *old(uids), target_uid)
                &&& final(buff_mgr)@ == with_params(
                    m2,
                    target_uid,
                    empathy_buff_of(m2, *cfg, target_uid).1,
                    empathy_params(*cfg, total, cap),
                )
            }),
            empathy_rows_agree(old(buff_mgr)@, *cfg, target_uid) ==> first_of_type(
                bucket(final(buff_mgr)@.active, target_uid),
                empathy_type(*cfg),
            ) is Some,
            final(buff_mgr).wf() == old(buff_mgr).wf(),
    {
        let cap = Self::storage_cap(buff_mgr, cfg, target_uid, target_max_hp);
        let t = if current_total < 0 { 0 } else { current_total };
        let total = if cap < t { cap } else { t };
        if total > 0 {
            self.values.insert(target_uid, total);
        } else {
            self.values.remove(&target_uid);
        }
        let (_buff_id, buff_uid) = ensure_empathy_buff(buff_mgr, cfg, uids, target_uid);
        let params = build_empathy_params(cfg, total, cap);
        let _ = buff_mgr.set_instance_act_common_params(target_uid, buff_uid, params);
        proof {
            if empathy_rows_agree(old(buff_mgr)@, *cfg, target_uid) {
                lemma_ensure_leaves_empathy(old(buff_mgr)@, *cfg, *old(uids), target_uid, buff_uid, empathy_params(*cfg, total, cap));
            }
        }
    }

    /// The storage step of `holder_uid` at which Insight III heals, when
    /// the active parameters give a positive one.
    pub fn storage_threshold(buff_mgr: &BuffMgr, cfg: &BattleConfig, holder_uid: i64, max_hp: i32) -> (r: Option<i32>)
        ensures
            r == storage_threshold_of(buff_mgr@, *cfg, holder_uid, max_hp),
    {
        let p = match active_injury_bank_params(buff_mgr, cfg, holder_uid) {
            Some(p) => p,
            None => return None,
        };
        let permille = if p.storage_threshold_permille < 0 { 0 } else { p.storage_threshold_permille };
        let threshold = scale_permille(max_hp, permille);
        if threshold > 0 {
            Some(threshold)
        } else {
            None
        }
    }

    /// The Insight III heal of `holder_uid` with `max_hp`.
    pub fn insight_iii_heal_amount(buff_mgr: &BuffMgr, cfg: &BattleConfig, holder_uid: i64, max_hp: i32) -> (r: i32)
        ensures
            r == heal_amount_of(buff_mgr@, *cfg, holder_uid, max_hp),
    {
        let permille = match active_injury_bank_params(buff_mgr, cfg, holder_uid) {
            Some(p) => p.heal_permille,
            None => 0,
        };
        scale_permille(max_hp, permille)
    }
}

/// Whether `target_uid` carries a buff of the Empathy type.
pub fn has_empathy_buff(buff_mgr: &BuffMgr, cfg: &BattleConfig, target_uid: i64) -> (r: bool)
    ensures
        r == first_of_type(bucket(buff_mgr@.active, target_uid), empathy_type(*cfg)).is_some(),
{
    buff_mgr.find_instance_by_type_id(target_uid, empathy_type_id(cfg)).is_some()
}

/// One storage reports every Insight III threshold it passes: with a
/// positive threshold `t`, going from a stored total `c` to `n`
/// (`0 <= c <= n`) crosses `n / t - c / t` multiples of `t` (two when
/// going from `0` to `2t`), and never a negative number.
pub proof fn law_storage_counts_every_threshold_crossed(t: i32, c: i32, n: i32)
    requires
        t > 0,
        0 <= c <= n,
    ensures
        crossed_between(Some(t), c, n) as int == (n as int) / (t as int) - (c as int) / (t as int),
        crossed_between(Some(t), c, n) >= 0,
        crossed_between(None, c, n) == 0,
{
    let q = (n as int) / (t as int) - (c as int) / (t as int);
    assert((c as int) / (t as int) <= (n as int) / (t as int)) by (nonlinear_arith)
        requires
            0 <= c <= n,
            t > 0,
    ;
    assert((n as int) / (t as int) <= n) by (nonlinear_arith)
        requires
            0 <= n,
            t > 0,
    ;
    assert(0 <= q <= i32::MAX);
}

} // verus!
