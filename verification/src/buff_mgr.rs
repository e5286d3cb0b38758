//! Live buff instances per target, with the bookkeeping that battle
//! triggers read: buffs deleted during the current step, cumulative
//! teammate injury, and per-round skill slot usage.
use std::collections::HashMap;
use vstd::prelude::*;
use crate::buff_uid::{
    BuffUidCounters, DEFENDER_BUFF_UID_START, next_buff_uid, observe_explicit_buff_uid_for_target, spec_advance_lane,
    spec_observe,
};
use crate::fight::{BuffInfo, Fight, FightEntityInfo, all_entities, collect_all_entities, i32_or, i64_or, opt_or};
use crate::config::{BattleConfig, BuffActRow, buff_row_index, find_buff_row, find_type_row, type_row_index};
use crate::text::{parse_field, parse_field_range, split, split_range, trim, trim_range};
use crate::manager::Manager;
use crate::table::{first_index, max_i32, lemma_first_index, lemma_first_index_is, lemma_first_index_none};

verus! {

/// One live buff on a target.
#[derive(Debug)]
pub struct BuffInstance {
    pub uid: i64,
    pub buff_id: i32,
    pub type_id: i32,
    pub from_uid: i64,
    /// Remaining rounds; `0` is permanent.
    pub duration: i32,
    /// The buff's count in packets.
    pub stacks: i32,
    /// The buff's layer in packets.
    pub layer: i32,
    pub act_common_params: Vec<u8>,
}

/// The values of a `BuffInstance`.
pub ghost struct BuffInstanceView {
    pub uid: i64,
    pub buff_id: i32,
    pub type_id: i32,
    pub from_uid: i64,
    pub duration: i32,
    pub stacks: i32,
    pub layer: i32,
    pub params: Seq<u8>,
}

impl View for BuffInstance {
    type V = BuffInstanceView;

    open spec fn view(&self) -> BuffInstanceView {
        BuffInstanceView {
            uid: self.uid,
            buff_id: self.buff_id,
            type_id: self.type_id,
            from_uid: self.from_uid,
            duration: self.duration,
            stacks: self.stacks,
            layer: self.layer,
            params: self.act_common_params@,
        }
    }
}

impl Clone for BuffInstance {
    fn clone(&self) -> (r: Self)
        ensures
            r@ == self@,
    {
        let params = self.act_common_params.clone();
        proof {
            assert(params@ =~= self.act_common_params@);
        }
        BuffInstance {
            uid: self.uid,
            buff_id: self.buff_id,
            type_id: self.type_id,
            from_uid: self.from_uid,
            duration: self.duration,
            stacks: self.stacks,
            layer: self.layer,
            act_common_params: params,
        }
    }
}

/// The views of a list of buff instances.
pub open spec fn views(v: Seq<BuffInstance>) -> Seq<BuffInstanceView> {
    v.map_values(|b: BuffInstance| b@)
}

/// The type id the table gives `buff_id`, `0` when it has no row.
pub open spec fn cfg_type_id(cfg: BattleConfig, buff_id: i32) -> i32 {
    match buff_row_index(cfg.skill_buff@, buff_id) {
        Some(i) => cfg.skill_buff@[i].type_id,
        None => 0,
    }
}

/// The duration the table gives `buff_id`, `0` when it has no row.
pub open spec fn cfg_during_time(cfg: BattleConfig, buff_id: i32) -> i32 {
    match buff_row_index(cfg.skill_buff@, buff_id) {
        Some(i) => cfg.skill_buff@[i].during_time,
        None => 0,
    }
}

/// The effect count the table gives `buff_id`, `0` when it has no row.
pub open spec fn cfg_effect_count(cfg: BattleConfig, buff_id: i32) -> i32 {
    match buff_row_index(cfg.skill_buff@, buff_id) {
        Some(i) => cfg.skill_buff@[i].effect_count,
        None => 0,
    }
}

/// Whether the table marks `buff_id` as timed (positive duration).
pub open spec fn cfg_is_timed(cfg: BattleConfig, buff_id: i32) -> bool {
    match buff_row_index(cfg.skill_buff@, buff_id) {
        Some(i) => cfg.skill_buff@[i].during_time > 0,
        None => false,
    }
}

/// Table values of `buff_id`: type id, duration and effect count.
pub fn buff_row_values(cfg: &BattleConfig, buff_id: i32) -> (r: (i32, i32, i32))
    ensures
        r == (cfg_type_id(*cfg, buff_id), cfg_during_time(*cfg, buff_id), cfg_effect_count(*cfg, buff_id)),
{
    match find_buff_row(&cfg.skill_buff, buff_id) {
        Some(i) => (cfg.skill_buff[i].type_id, cfg.skill_buff[i].during_time, cfg.skill_buff[i].effect_count),
        None => (0, 0, 0),
    }
}

impl BuffInstance {
    /// A new instance of `buff_id` from `from_uid`, with type, duration
    /// and count from the table and the next uid of the active lane.
    pub fn build(buff_id: i32, from_uid: i64, cfg: &BattleConfig, uids: &mut BuffUidCounters) -> (r: Self)
        ensures
            *final(uids) == spec_advance_lane(*old(uids), 2),
            r@ == (BuffInstanceView {
                uid: final(uids).lane_value(),
                buff_id,
                type_id: cfg_type_id(*cfg, buff_id),
                from_uid,
                duration: cfg_during_time(*cfg, buff_id),
                stacks: cfg_effect_count(*cfg, buff_id),
                layer: 0,
                params: Seq::empty(),
            }),
    {
        let (type_id, during_time, effect_count) = buff_row_values(cfg, buff_id);
        BuffInstance {
            uid: next_buff_uid(uids),
            buff_id,
            type_id,
            from_uid,
            duration: during_time,
            stacks: effect_count,
            layer: 0,
            act_common_params: Vec::new(),
        }
    }
}

/// What consuming one stacked drop-damage buff did.
#[derive(Debug, Clone)]
pub enum StackConsumeResult {
    /// The buff lost one layer or count and stays.
    Updated(BuffInstance),
    /// The buff was removed.
    Removed(BuffInstance),
}

/// The state of a `BuffMgr`.
pub ghost struct BuffMgrView {
    /// Buff instances by target uid, in insertion order.
    pub active: Map<i64, Seq<BuffInstanceView>>,
    /// Buff ids and type ids deleted during the current step.
    pub step_deleted: Seq<i32>,
    /// Cumulative teammate injury by holder uid.
    pub teammate_injury: Map<i64, i32>,
    /// Per-round use counts by `(caster_uid, skill_effect_id, slot)`.
    pub slot_usage: Map<(i64, i32, u8), i32>,
}

/// Live buff instances and their bookkeeping.
#[derive(Debug)]
pub struct BuffMgr {
    active: HashMap<i64, Vec<BuffInstance>>,
    step_deleted_buff_ids: Vec<i32>,
    teammate_injury_not_reset: HashMap<i64, i32>,
    skill_slot_round_usage: Vec<((i64, i32, u8), i32)>,
}

/// The map view of an association list with distinct keys.
pub open spec fn assoc_view(v: Seq<((i64, i32, u8), i32)>) -> Map<(i64, i32, u8), i32> {
    Map::new(
        |k: (i64, i32, u8)| exists|i: int| 0 <= i < v.len() && v[i].0 == k,
        |k: (i64, i32, u8)| v[choose|i: int| 0 <= i < v.len() && v[i].0 == k].1,
    )
}

/// Keys of an association list are distinct.
pub open spec fn assoc_wf(v: Seq<((i64, i32, u8), i32)>) -> bool {
    forall|i: int, j: int| 0 <= i < v.len() && 0 <= j < v.len() && i != j ==> v[i].0 != v[j].0
}

/// The bucket of `uid`, empty when it has none.
pub open spec fn bucket(m: Map<i64, Seq<BuffInstanceView>>, uid: i64) -> Seq<BuffInstanceView> {
    if m.contains_key(uid) { m[uid] } else { Seq::empty() }
}

impl View for BuffMgr {
    type V = BuffMgrView;

    closed spec fn view(&self) -> BuffMgrView {
        BuffMgrView {
            active: self.active@.map_values(|v: Vec<BuffInstance>| views(v@)),
            step_deleted: self.step_deleted_buff_ids@,
            teammate_injury: self.teammate_injury_not_reset@,
            slot_usage: assoc_view(self.skill_slot_round_usage@),
        }
    }
}

impl BuffMgr {
    /// The slot-usage list keeps distinct keys.
    pub closed spec fn wf(&self) -> bool {
        assoc_wf(self.skill_slot_round_usage@)
    }

    /// A manager with no buffs.
    pub fn new() -> (r: Self)
        ensures
            r.wf(),
            r@ == (BuffMgrView {
                active: Map::empty(),
                step_deleted: Seq::empty(),
                teammate_injury: Map::empty(),
                slot_usage: Map::empty(),
            }),
    {
        let r = BuffMgr {
            active: HashMap::new(),
            step_deleted_buff_ids: Vec::new(),
            teammate_injury_not_reset: HashMap::new(),
            skill_slot_round_usage: Vec::new(),
        };
        proof {
            assert(r@.active =~= Map::empty());
            assert(r@.slot_usage =~= Map::empty());
        }
        r
    }

    /// Whether no target has a bucket (an emptied bucket still counts).
    pub fn is_empty(&self) -> (r: bool)
        ensures
            r == (self@.active.dom().len() == 0),
    {
        proof {
            assert(self@.active.dom() =~= self.active@.dom());
        }
        self.active.is_empty()
    }

    /// The buff instances on `uid`, in insertion order.
    pub fn get(&self, uid: i64) -> (r: &[BuffInstance])
        ensures
            views(r@) == bucket(self@.active, uid),
    {
        match self.active.get(&uid) {
            Some(v) => v.as_slice(),
            None => {
                let r: &[BuffInstance] = &[];
                proof {
                    assert(views(r@) =~= Seq::<BuffInstanceView>::empty());
                }
                r
            },
        }
    }

    /// Whether `uid` carries an instance of `buff_id`.
    pub fn has(&self, uid: i64, buff_id: i32) -> (r: bool)
        ensures
            r == exists|i: int| 0 <= i < bucket(self@.active, uid).len() && bucket(self@.active, uid)[i].buff_id == buff_id,
    {
        let buffs = self.get(uid);
        let mut i: usize = 0;
        while i < buffs.len()
            invariant
                views(buffs@) == bucket(self@.active, uid),
                i <= buffs@.len(),
                forall|j: int| 0 <= j < i ==> buffs@[j].buff_id != buff_id,
            decreases buffs@.len() - i,
        {
            if buffs[i].buff_id == buff_id {
                proof { assert(bucket(self@.active, uid)[i as int].buff_id == buff_id); }
                return true;
            }
            i += 1;
        }
        proof {
            assert forall|j: int| 0 <= j < bucket(self@.active, uid).len() implies bucket(self@.active, uid)[j].buff_id != buff_id by {
                assert(bucket(self@.active, uid)[j] == buffs@[j]@);
            }
        }
        false
    }

    /// Whether `uid` carries an instance whose type is `type_id`.
    pub fn has_type(&self, uid: i64, type_id: i32) -> (r: bool)
        ensures
            r == exists|i: int| 0 <= i < bucket(self@.active, uid).len() && bucket(self@.active, uid)[i].type_id == type_id,
    {
        let buffs = self.get(uid);
        let mut i: usize = 0;
        while i < buffs.len()
            invariant
                views(buffs@) == bucket(self@.active, uid),
                i <= buffs@.len(),
                forall|j: int| 0 <= j < i ==> buffs@[j].type_id != type_id,
            decreases buffs@.len() - i,
        {
            if buffs[i].type_id == type_id {
                proof { assert(bucket(self@.active, uid)[i as int].type_id == type_id); }
                return true;
            }
            i += 1;
        }
        proof {
            assert forall|j: int| 0 <= j < bucket(self@.active, uid).len() implies bucket(self@.active, uid)[j].type_id != type_id by {
                assert(bucket(self@.active, uid)[j] == buffs@[j]@);
            }
        }
        false
    }
}

/// The count a buff contributes: its stacks, or `1` when stacks is `0`.
pub open spec fn weight(b: BuffInstanceView) -> int {
    if b.stacks == 0 { 1 } else { b.stacks as int }
}

/// Total weight of the instances whose buff id is in `ids`.
pub open spec fn sum_ids(s: Seq<BuffInstanceView>, ids: Seq<i32>) -> int
    decreases s.len(),
{
    if s.len() == 0 {
        0
    } else {
        sum_ids(s.drop_last(), ids) + if ids.contains(s.last().buff_id) { weight(s.last()) } else { 0 }
    }
}

/// Total weight of the instances whose type is `type_id`.
pub open spec fn sum_type(s: Seq<BuffInstanceView>, type_id: i32) -> int
    decreases s.len(),
{
    if s.len() == 0 {
        0
    } else {
        sum_type(s.drop_last(), type_id) + if s.last().type_id == type_id { weight(s.last()) } else { 0 }
    }
}

/// `a + b` clamped to `i32::MAX` for a positive `b`.
pub open spec fn sat_add(a: i32, b: i32) -> i32 {
    if a + b > i32::MAX { i32::MAX } else { (a + b) as i32 }
}

fn slice_contains(s: &[i32], x: i32) -> (r: bool)
    ensures
        r == s@.contains(x),
{
    let mut i: usize = 0;
    while i < s.len()
        invariant
            i <= s@.len(),
            forall|j: int| 0 <= j < i ==> s@[j] != x,
        decreases s@.len() - i,
    {
        if s[i] == x {
            proof { assert(s@[i as int] == x); }
            return true;
        }
        i += 1;
    }
    false
}

proof fn lemma_views_take(v: Seq<BuffInstance>, i: int)
    requires
        0 <= i < v.len(),
    ensures
        views(v.take(i + 1)).drop_last() == views(v.take(i)),
        views(v.take(i + 1)).last() == v[i]@,
        views(v.take(i + 1)).len() == i + 1,
{
    assert(views(v.take(i + 1)).drop_last() =~= views(v.take(i)));
}

proof fn lemma_assoc_find(v: Seq<((i64, i32, u8), i32)>, i: int)
    requires
        assoc_wf(v),
        0 <= i < v.len(),
    ensures
        assoc_view(v).contains_key(v[i].0),
        assoc_view(v)[v[i].0] == v[i].1,
{
    let k = v[i].0;
    assert(exists|j: int| 0 <= j < v.len() && v[j].0 == k);
    let j = choose|j: int| 0 <= j < v.len() && v[j].0 == k;
    assert(j == i);
}

proof fn lemma_assoc_update(v: Seq<((i64, i32, u8), i32)>, i: int, val: i32)
    requires
        assoc_wf(v),
        0 <= i < v.len(),
    ensures
        assoc_wf(v.update(i, (v[i].0, val))),
        assoc_view(v.update(i, (v[i].0, val))) == assoc_view(v).insert(v[i].0, val),
{
    let w = v.update(i, (v[i].0, val));
    assert forall|a: int, b: int| 0 <= a < w.len() && 0 <= b < w.len() && a != b implies w[a].0 != w[b].0 by {
        assert(w[a].0 == v[a].0 && w[b].0 == v[b].0);
    }
    assert forall|k: (i64, i32, u8)| #[trigger] assoc_view(w).contains_key(k) == assoc_view(v).insert(v[i].0, val).contains_key(k) by {
        if exists|j: int| 0 <= j < v.len() && v[j].0 == k {
            let j = choose|j: int| 0 <= j < v.len() && v[j].0 == k;
            assert(w[j].0 == k);
        }
        if exists|j: int| 0 <= j < w.len() && w[j].0 == k {
            let j = choose|j: int| 0 <= j < w.len() && w[j].0 == k;
            assert(v[j].0 == k);
        }
    }
    assert forall|k: (i64, i32, u8)| assoc_view(w).contains_key(k) implies assoc_view(w)[k] == assoc_view(v).insert(v[i].0, val)[k] by {
        let j = choose|j: int| 0 <= j < w.len() && w[j].0 == k;
        lemma_assoc_find(w, j);
        if k != v[i].0 {
            assert(j != i);
            lemma_assoc_find(v, j);
        }
    }
    assert(assoc_view(w) =~= assoc_view(v).insert(v[i].0, val));
}

proof fn lemma_assoc_push(v: Seq<((i64, i32, u8), i32)>, k: (i64, i32, u8), val: i32)
    requires
        assoc_wf(v),
        forall|j: int| 0 <= j < v.len() ==> v[j].0 != k,
    ensures
        assoc_wf(v.push((k, val))),
        assoc_view(v.push((k, val))) == assoc_view(v).insert(k, val),
{
    let w = v.push((k, val));
    assert forall|k2: (i64, i32, u8)| #[trigger] assoc_view(w).contains_key(k2) == assoc_view(v).insert(k, val).contains_key(k2) by {
        if exists|j: int| 0 <= j < v.len() && v[j].0 == k2 {
            let j = choose|j: int| 0 <= j < v.len() && v[j].0 == k2;
            assert(w[j].0 == k2);
        }
        if k2 == k {
            assert(w[v.len() as int].0 == k2);
        }
        if exists|j: int| 0 <= j < w.len() && w[j].0 == k2 {
            let j = choose|j: int| 0 <= j < w.len() && w[j].0 == k2;
            if j < v.len() {
                assert(v[j].0 == k2);
            }
        }
    }
    assert forall|k2: (i64, i32, u8)| assoc_view(w).contains_key(k2) implies assoc_view(w)[k2] == assoc_view(v).insert(k, val)[k2] by {
        let j = choose|j: int| 0 <= j < w.len() && w[j].0 == k2;
        lemma_assoc_find(w, j);
        if k2 != k {
            lemma_assoc_find(v, j);
        }
    }
    assert(assoc_view(w) =~= assoc_view(v).insert(k, val));
}

impl BuffMgr {
    /// Total count of the instances on `uid` whose buff id is in
    /// `buff_ids`; an instance with `0` stacks counts once.
    pub fn count_buff_ids(&self, uid: i64, buff_ids: &[i32]) -> (r: i32)
        requires
            i32::MIN <= sum_ids(bucket(self@.active, uid), buff_ids@) <= i32::MAX,
        ensures
            r == sum_ids(bucket(self@.active, uid), buff_ids@),
    {
        let buffs = self.get(uid);
        let ghost s = views(buffs@);
        let mut total: i128 = 0;
        let mut i: usize = 0;
        while i < buffs.len()
            invariant
                s == views(buffs@),
                i <= buffs@.len(),
                total == sum_ids(views(buffs@.take(i as int)), buff_ids@),
                -0x8000_0000 * i <= total <= 0x8000_0000 * i,
            decreases buffs@.len() - i,
        {
            proof { lemma_views_take(buffs@, i as int); }
            let b = &buffs[i];
            if slice_contains(buff_ids, b.buff_id) {
                let w: i128 = if b.stacks == 0 { 1 } else { b.stacks as i128 };
                total = total + w;
            }
            i += 1;
        }
        proof { assert(buffs@.take(buffs@.len() as int) =~= buffs@); }
        total as i32
    }

    /// Total count of the instances on `uid` whose type is `type_id`; an
    /// instance with `0` stacks counts once.
    pub fn count_type(&self, uid: i64, type_id: i32) -> (r: i32)
        requires
            i32::MIN <= sum_type(bucket(self@.active, uid), type_id) <= i32::MAX,
        ensures
            r == sum_type(bucket(self@.active, uid), type_id),
    {
        let buffs = self.get(uid);
        let mut total: i128 = 0;
        let mut i: usize = 0;
        while i < buffs.len()
            invariant
                i <= buffs@.len(),
                total == sum_type(views(buffs@.take(i as int)), type_id),
                -0x8000_0000 * i <= total <= 0x8000_0000 * i,
            decreases buffs@.len() - i,
        {
            proof { lemma_views_take(buffs@, i as int); }
            let b = &buffs[i];
            if b.type_id == type_id {
                let w: i128 = if b.stacks == 0 { 1 } else { b.stacks as i128 };
                total = total + w;
            }
            i += 1;
        }
        proof { assert(buffs@.take(buffs@.len() as int) =~= buffs@); }
        total as i32
    }

    /// Buff ids (and their type ids) removed since the last
    /// `clear_step_deleted_buff_ids`.
    pub fn step_deleted_buff_ids(&self) -> (r: &[i32])
        ensures
            r@ == self@.step_deleted,
    {
        self.step_deleted_buff_ids.as_slice()
    }

    /// Resets the in-step deleted-buff record.
    pub fn clear_step_deleted_buff_ids(&mut self)
        ensures
            final(self)@ == (BuffMgrView { step_deleted: Seq::empty(), ..old(self)@ }),
            final(self).wf() == old(self).wf(),
    {
        self.step_deleted_buff_ids.clear();
        proof { assert(self@.step_deleted =~= Seq::<i32>::empty()); }
    }

    /// Cumulative teammate injury observed for `uid` (never reset on round end).
    pub fn teammate_injury_not_reset(&self, uid: i64) -> (r: i32)
        ensures
            r == (if self@.teammate_injury.contains_key(uid) { self@.teammate_injury[uid] } else { 0 }),
    {
        match self.teammate_injury_not_reset.get(&uid) {
            Some(v) => *v,
            None => 0,
        }
    }

    /// Adds a positive `amount` of teammate injury for a nonzero `uid`,
    /// saturating at `i32::MAX`; other inputs change nothing.
    pub fn add_teammate_injury_not_reset(&mut self, uid: i64, amount: i32)
        ensures
            final(self).wf() == old(self).wf(),
            final(self)@ == (if uid == 0 || amount <= 0 {
                old(self)@
            } else {
                BuffMgrView {
                    teammate_injury: old(self)@.teammate_injury.insert(
                        uid,
                        sat_add(
                            if old(self)@.teammate_injury.contains_key(uid) { old(self)@.teammate_injury[uid] } else { 0 },
                            amount,
                        ),
                    ),
                    ..old(self)@
                }
            }),
    {
        if uid == 0 || amount <= 0 {
            return;
        }
        let cur = match self.teammate_injury_not_reset.get(&uid) {
            Some(v) => *v,
            None => 0,
        };
        let next = if cur > i32::MAX - amount { i32::MAX } else { cur + amount };
        self.teammate_injury_not_reset.insert(uid, next);
    }

    /// Uses of slot `slot` of `skill_effect_id` by `caster_uid` this round.
    pub fn skill_slot_round_usage(&self, caster_uid: i64, skill_effect_id: i32, slot: u8) -> (r: i32)
        requires
            self.wf(),
        ensures
            r == (if self@.slot_usage.contains_key((caster_uid, skill_effect_id, slot)) {
                self@.slot_usage[(caster_uid, skill_effect_id, slot)]
            } else {
                0
            }),
    {
        let key = (caster_uid, skill_effect_id, slot);
        let mut i: usize = 0;
        while i < self.skill_slot_round_usage.len()
            invariant
                assoc_wf(self.skill_slot_round_usage@),
                key == (caster_uid, skill_effect_id, slot),
                i <= self.skill_slot_round_usage@.len(),
                forall|j: int| 0 <= j < i ==> self.skill_slot_round_usage@[j].0 != key,
            decreases self.skill_slot_round_usage@.len() - i,
        {
            let (k, v) = self.skill_slot_round_usage[i];
            if k.0 == caster_uid && k.1 == skill_effect_id && k.2 == slot {
                proof { lemma_assoc_find(self.skill_slot_round_usage@, i as int); }
                return v;
            }
            proof { assert(self.skill_slot_round_usage@[i as int].0 != key); }
            i += 1;
        }
        proof {
            assert(!self@.slot_usage.contains_key(key));
        }
        0
    }

    /// Counts one more use of the slot (saturating) and returns the new count.
    pub fn increment_skill_slot_round_usage(&mut self, caster_uid: i64, skill_effect_id: i32, slot: u8) -> (r: i32)
        requires
            old(self).wf(),
        ensures
            final(self).wf(),
            r == sat_add(
                if old(self)@.slot_usage.contains_key((caster_uid, skill_effect_id, slot)) {
                    old(self)@.slot_usage[(caster_uid, skill_effect_id, slot)]
                } else {
                    0
                },
                1,
            ),
            final(self)@ == (BuffMgrView {
                slot_usage: old(self)@.slot_usage.insert((caster_uid, skill_effect_id, slot), r),
                ..old(self)@
            }),
    {
        let key = (caster_uid, skill_effect_id, slot);
        let mut i: usize = 0;
        while i < self.skill_slot_round_usage.len()
            invariant
                *self == *old(self),
                assoc_wf(self.skill_slot_round_usage@),
                key == (caster_uid, skill_effect_id, slot),
                i <= self.skill_slot_round_usage@.len(),
                forall|j: int| 0 <= j < i ==> self.skill_slot_round_usage@[j].0 != key,
            decreases self.skill_slot_round_usage@.len() - i,
        {
            let (k, v) = self.skill_slot_round_usage[i];
            if k.0 == caster_uid && k.1 == skill_effect_id && k.2 == slot {
                let next = if v == i32::MAX { i32::MAX } else { v + 1 };
                proof {
                    lemma_assoc_find(self.skill_slot_round_usage@, i as int);
                    lemma_assoc_update(self.skill_slot_round_usage@, i as int, next);
                }
                self.skill_slot_round_usage.set(i, (k, next));
                return next;
            }
            proof { assert(self.skill_slot_round_usage@[i as int].0 != key); }
            i += 1;
        }
        proof {
            assert(!self@.slot_usage.contains_key(key));
            lemma_assoc_push(self.skill_slot_round_usage@, key, 1);
        }
        self.skill_slot_round_usage.push((key, 1));
        1
    }

    /// Forgets all slot usage (a new round).
    pub fn reset_skill_slot_round_usage(&mut self)
        ensures
            final(self).wf(),
            final(self)@ == (BuffMgrView { slot_usage: Map::empty(), ..old(self)@ }),
    {
        self.skill_slot_round_usage.clear();
        proof { assert(self@.slot_usage =~= Map::empty()); }
    }
}

/// The first `#`-separated include-type tag of the type of `buff_id`,
/// trimmed, when the buff and its type have rows.
pub open spec fn include_tag(cfg: BattleConfig, buff_id: i32) -> Option<Seq<u8>> {
    match buff_row_index(cfg.skill_buff@, buff_id) {
        Some(i) => match type_row_index(cfg.skill_bufftype@, cfg.skill_buff@[i].type_id) {
            Some(t) => Some(trim(split(cfg.skill_bufftype@[t].include_types@, 35u8)[0])),
            None => None,
        },
        None => None,
    }
}

/// The include-type tags `10`, `12`, `14` and `15`: buffs whose every
/// application adds an instance instead of refreshing one.
pub open spec fn is_stacked_tag(t: Seq<u8>) -> bool {
    t == seq![49u8, 48u8] || t == seq![49u8, 50u8] || t == seq![49u8, 52u8] || t == seq![49u8, 53u8]
}

/// Whether every application of `buff_id` adds a separate instance.
pub open spec fn cfg_stacked(cfg: BattleConfig, buff_id: i32) -> bool {
    match include_tag(cfg, buff_id) {
        Some(t) => is_stacked_tag(t),
        None => false,
    }
}

/// The act type of the first buff act row with id `act_id`, empty when none.
pub open spec fn act_type_of(acts: Seq<BuffActRow>, act_id: i32) -> Seq<char> {
    match first_index(acts, |a: BuffActRow| a.id == act_id) {
        Some(i) => acts[i].act_type@,
        None => Seq::empty(),
    }
}

/// Act types that modify attributes.
pub open spec fn is_attr_like(t: Seq<char>) -> bool {
    t == "Attr"@ || t == "AttrOnlyCalDamageAttack"@ || t == "AttrOnlyCalDamageBeAttacked"@
        || t == "AttrOnlyCalDamageAttackType"@ || t == "AttrOnlyCalDamageBeAttackedType"@
}

/// The attribute id of drop damage.
pub const DROP_DMG_ATTR_ID: i32 = 206;

/// A feature entry `act_id#attr_id#...` whose act is attribute-like and
/// whose attribute is drop damage.
pub open spec fn entry_is_drop_dmg(acts: Seq<BuffActRow>, entry: Seq<u8>) -> bool {
    let parts = split(entry, 35u8);
    match parse_field(parts[0]) {
        Some(act_id) => is_attr_like(act_type_of(acts, act_id)) && parts.len() > 1 && parse_field(parts[1])
            == Some(DROP_DMG_ATTR_ID),
        None => false,
    }
}

/// Whether some `|`-separated entry of `features` modifies drop damage.
pub open spec fn has_drop_dmg_entry(acts: Seq<BuffActRow>, features: Seq<u8>) -> bool {
    exists|e: int| 0 <= e < split(features, 124u8).len() && entry_is_drop_dmg(acts, #[trigger] split(features, 124u8)[e])
}

/// Whether some feature entry of `buff_id` modifies drop damage.
pub open spec fn cfg_drop_dmg(cfg: BattleConfig, buff_id: i32) -> bool {
    match buff_row_index(cfg.skill_buff@, buff_id) {
        Some(i) => has_drop_dmg_entry(cfg.buff_act@, cfg.skill_buff@[i].features@),
        None => false,
    }
}

fn bytes_eq2(s: &Vec<u8>, a: usize, e: usize, x: u8, y: u8) -> (r: bool)
    requires
        a <= e <= s@.len(),
    ensures
        r == (s@.subrange(a as int, e as int) == seq![x, y]),
{
    if e - a != 2 {
        proof {
            assert(s@.subrange(a as int, e as int).len() != 2);
        }
        return false;
    }
    let r = s[a] == x && s[a + 1] == y;
    proof {
        if r {
            assert(s@.subrange(a as int, e as int) =~= seq![x, y]);
        } else {
            let t = s@.subrange(a as int, e as int);
            assert(t[0] == s@[a as int] && t[1] == s@[a + 1]);
        }
    }
    r
}

pub(crate) fn find_act_type(acts: &Vec<BuffActRow>, act_id: i32) -> (r: Option<usize>)
    ensures
        match r {
            Some(i) => i < acts@.len() && first_index(acts@, |a: BuffActRow| a.id == act_id) == Some(i as int),
            None => first_index(acts@, |a: BuffActRow| a.id == act_id) == None::<int>,
        },
{
    let ghost p = |a: BuffActRow| a.id == act_id;
    let mut i: usize = 0;
    while i < acts.len()
        invariant
            i <= acts@.len(),
            forall|j: int| 0 <= j < i ==> !p(#[trigger] acts@[j]),
            p == (|a: BuffActRow| a.id == act_id),
        decreases acts@.len() - i,
    {
        if acts[i].id == act_id {
            proof { lemma_first_index_is(acts@, p, i as int); }
            return Some(i);
        }
        i += 1;
    }
    proof { lemma_first_index_none(acts@, p); }
    None
}

fn act_is_attr_like(acts: &Vec<BuffActRow>, act_id: i32) -> (r: bool)
    ensures
        r == is_attr_like(act_type_of(acts@, act_id)),
{
    match find_act_type(acts, act_id) {
        None => {
            proof {
                reveal_strlit("Attr");
                reveal_strlit("AttrOnlyCalDamageAttack");
                reveal_strlit("AttrOnlyCalDamageBeAttacked");
                reveal_strlit("AttrOnlyCalDamageAttackType");
                reveal_strlit("AttrOnlyCalDamageBeAttackedType");
                assert(act_type_of(acts@, act_id).len() == 0);
            }
            false
        },
        Some(i) => {
            let t = &acts[i].act_type;
            *t == "Attr".to_owned() || *t == "AttrOnlyCalDamageAttack".to_owned() || *t
                == "AttrOnlyCalDamageBeAttacked".to_owned() || *t == "AttrOnlyCalDamageAttackType".to_owned()
                || *t == "AttrOnlyCalDamageBeAttackedType".to_owned()
        },
    }
}

impl BuffMgr {
    /// Whether every application of `buff_id` adds a separate instance:
    /// the first `#`-tag of its buff type is `10`, `12`, `14` or `15`.
    #[verifier::spinoff_prover]
    fn is_stacked_include_type(buff_id: i32, cfg: &BattleConfig) -> (r: bool)
        ensures
            r == cfg_stacked(*cfg, buff_id),
    {
        let row = match find_buff_row(&cfg.skill_buff, buff_id) {
            Some(i) => i,
            None => return false,
        };
        let t = match find_type_row(&cfg.skill_bufftype, cfg.skill_buff[row].type_id) {
            Some(t) => t,
            None => return false,
        };
        let text = &cfg.skill_bufftype[t].include_types;
        let fields = split_range(text.as_slice(), 0, text.len(), 35u8);
        proof {
            assert(text@.subrange(0, text@.len() as int) =~= text@);
        }
        let (a, e) = trim_range(text.as_slice(), fields[0].0, fields[0].1);
        bytes_eq2(text, a, e, 49, 48) || bytes_eq2(text, a, e, 49, 50) || bytes_eq2(text, a, e, 49, 52) || bytes_eq2(
            text,
            a,
            e,
            49,
            53,
        )
    }

    /// Whether some feature entry of `buff_id` is an attribute-like act on
    /// drop damage.
    fn is_drop_dmg_attr_buff(buff_id: i32, cfg: &BattleConfig) -> (r: bool)
        ensures
            r == cfg_drop_dmg(*cfg, buff_id),
    {
        let row = match find_buff_row(&cfg.skill_buff, buff_id) {
            Some(i) => i,
            None => return false,
        };
        let text = &cfg.skill_buff[row].features;
        let ghost entries = split(text@, 124u8);
        let fields = split_range(text.as_slice(), 0, text.len(), 124u8);
        proof {
            assert(text@.subrange(0, text@.len() as int) =~= text@);
        }
        let mut k: usize = 0;
        while k < fields.len()
            invariant
                entries == split(text@, 124u8),
                row < cfg.skill_buff@.len(),
                text@ == cfg.skill_buff@[row as int].features@,
                buff_row_index(cfg.skill_buff@, buff_id) == Some(row as int),
                fields@.len() == entries.len(),
                forall|i: int| 0 <= i < fields@.len() ==> #[trigger] fields@[i].0 <= fields@[i].1 <= text@.len(),
                forall|i: int| 0 <= i < fields@.len() ==> text@.subrange(#[trigger] fields@[i].0 as int, fields@[i].1 as int) == entries[i],
                k <= fields@.len(),
                forall|i: int| 0 <= i < k ==> !entry_is_drop_dmg(cfg.buff_act@, #[trigger] entries[i]),
            decreases fields@.len() - k,
        {
            let (fa, fe) = fields[k];
            let parts = split_range(text.as_slice(), fa, fe, 35u8);
            proof {
                assert(text@.subrange(fa as int, fe as int) == entries[k as int]);
            }
            match parse_field_range(text.as_slice(), parts[0].0, parts[0].1) {
                None => {},
                Some(act_id) => {
                    if act_is_attr_like(&cfg.buff_act, act_id) && parts.len() > 1 {
                        if parse_field_range(text.as_slice(), parts[1].0, parts[1].1) == Some(DROP_DMG_ATTR_ID) {
                            proof {
                                assert(entry_is_drop_dmg(cfg.buff_act@, entries[k as int]));
                                assert(0 <= k < entries.len());
                                let ghost es = split(cfg.skill_buff@[row as int].features@, 124u8);
                                assert(es == entries);
                                assert(entry_is_drop_dmg(cfg.buff_act@, es[k as int]));
                                assert(buff_row_index(cfg.skill_buff@, buff_id) == Some(row as int));
                                assert(has_drop_dmg_entry(cfg.buff_act@, cfg.skill_buff@[row as int].features@));
                                assert(cfg_drop_dmg(*cfg, buff_id));
                            }
                            return true;
                        }
                    }
                },
            }
            k += 1;
        }
        false
    }
}

/// Index of the first instance of `buff_id`.
pub open spec fn first_of_buff(s: Seq<BuffInstanceView>, buff_id: i32) -> Option<int> {
    first_index(s, |b: BuffInstanceView| b.buff_id == buff_id)
}

/// Index of the first instance with uid `uid`.
pub open spec fn first_of_uid(s: Seq<BuffInstanceView>, uid: i64) -> Option<int> {
    first_index(s, |b: BuffInstanceView| b.uid == uid)
}

/// Index of the first instance of type `type_id`.
pub open spec fn first_of_type(s: Seq<BuffInstanceView>, type_id: i32) -> Option<int> {
    first_index(s, |b: BuffInstanceView| b.type_id == type_id)
}

/// An instance after a refresh: the longer duration, new stacks and layer.
pub open spec fn refreshed(b: BuffInstanceView, inst: BuffInstanceView) -> BuffInstanceView {
    BuffInstanceView {
        duration: max_i32(b.duration, inst.duration),
        stacks: inst.stacks,
        layer: inst.layer,
        ..b
    }
}

/// A bucket after `add` of `inst`: a new instance for stacked buffs;
/// otherwise the first instance of the same buff is refreshed, or `inst`
/// is appended when there is none.
pub open spec fn bucket_after_add(s: Seq<BuffInstanceView>, inst: BuffInstanceView, stacked: bool) -> Seq<BuffInstanceView> {
    if stacked {
        s.push(inst)
    } else {
        match first_of_buff(s, inst.buff_id) {
            Some(i) => s.update(i, refreshed(s[i], inst)),
            None => s.push(inst),
        }
    }
}

/// A bucket after `add_with_uid` of `inst`: an instance with the same uid
/// takes over the new values (keeping the longer duration); otherwise as
/// `add`, where a refreshed instance also takes the new uid.
pub open spec fn bucket_after_add_with_uid(s: Seq<BuffInstanceView>, inst: BuffInstanceView, stacked: bool) -> Seq<
    BuffInstanceView,
> {
    match first_of_uid(s, inst.uid) {
        Some(i) => s.update(
            i,
            BuffInstanceView {
                buff_id: inst.buff_id,
                type_id: inst.type_id,
                from_uid: inst.from_uid,
                ..refreshed(s[i], inst)
            },
        ),
        None => if stacked {
            s.push(inst)
        } else {
            match first_of_buff(s, inst.buff_id) {
                Some(i) => s.update(i, BuffInstanceView { uid: inst.uid, ..refreshed(s[i], inst) }),
                None => s.push(inst),
            }
        },
    }
}

/// The instance values `add` and `add_with_uid` derive from the table.
pub open spec fn new_instance(
    cfg: BattleConfig,
    uid: i64,
    buff_id: i32,
    from_uid: i64,
    count: i32,
    layer: i32,
) -> BuffInstanceView {
    BuffInstanceView {
        uid,
        buff_id,
        type_id: cfg_type_id(cfg, buff_id),
        from_uid,
        duration: cfg_during_time(cfg, buff_id),
        stacks: if count > 0 { count } else { cfg_effect_count(cfg, buff_id) },
        layer,
        params: Seq::empty(),
    }
}

/// Ids recorded when an instance is deleted: its buff id, and its type id
/// when that differs, zeros left out.
pub open spec fn deleted_ids(b: BuffInstanceView) -> Seq<i32> {
    (if b.buff_id != 0 { seq![b.buff_id] } else { Seq::empty() }) + (if b.type_id != 0 && b.type_id
        != b.buff_id {
        seq![b.type_id]
    } else {
        Seq::empty()
    })
}

/// Ids recorded when the instances of `s` are deleted, in order.
pub open spec fn deleted_of(s: Seq<BuffInstanceView>) -> Seq<i32>
    decreases s.len(),
{
    if s.len() == 0 { Seq::empty() } else { deleted_of(s.drop_last()) + deleted_ids(s.last()) }
}

proof fn lemma_views_push(v: Seq<BuffInstance>, b: BuffInstance)
    ensures
        views(v.push(b)) == views(v).push(b@),
{
    assert(views(v.push(b)) =~= views(v).push(b@));
}

fn record_deleted(step_deleted: &mut Vec<i32>, inst: &BuffInstance)
    ensures
        final(step_deleted)@ == old(step_deleted)@ + deleted_ids(inst@),
{
    if inst.buff_id != 0 {
        step_deleted.push(inst.buff_id);
    }
    if inst.type_id != 0 && inst.type_id != inst.buff_id {
        step_deleted.push(inst.type_id);
    }
    proof {
        assert(step_deleted@ =~= old(step_deleted)@ + deleted_ids(inst@));
    }
}

fn first_with_buff_id(v: &Vec<BuffInstance>, buff_id: i32) -> (r: Option<usize>)
    ensures
        match r {
            Some(i) => i < v@.len() && first_of_buff(views(v@), buff_id) == Some(i as int),
            None => first_of_buff(views(v@), buff_id) == None::<int>,
        },
{
    let ghost p = |b: BuffInstanceView| b.buff_id == buff_id;
    let mut i: usize = 0;
    while i < v.len()
        invariant
            i <= v@.len(),
            p == (|b: BuffInstanceView| b.buff_id == buff_id),
            forall|j: int| 0 <= j < i ==> !p(#[trigger] views(v@)[j]),
        decreases v@.len() - i,
    {
        if v[i].buff_id == buff_id {
            proof { lemma_first_index_is(views(v@), p, i as int); }
            return Some(i);
        }
        i += 1;
    }
    proof { lemma_first_index_none(views(v@), p); }
    None
}

fn first_with_uid(v: &Vec<BuffInstance>, uid: i64) -> (r: Option<usize>)
    ensures
        match r {
            Some(i) => i < v@.len() && first_of_uid(views(v@), uid) == Some(i as int),
            None => first_of_uid(views(v@), uid) == None::<int>,
        },
{
    let ghost p = |b: BuffInstanceView| b.uid == uid;
    let mut i: usize = 0;
    while i < v.len()
        invariant
            i <= v@.len(),
            p == (|b: BuffInstanceView| b.uid == uid),
            forall|j: int| 0 <= j < i ==> !p(#[trigger] views(v@)[j]),
        decreases v@.len() - i,
    {
        if v[i].uid == uid {
            proof { lemma_first_index_is(views(v@), p, i as int); }
            return Some(i);
        }
        i += 1;
    }
    proof { lemma_first_index_none(views(v@), p); }
    None
}

fn first_with_type_id(v: &[BuffInstance], type_id: i32) -> (r: Option<usize>)
    ensures
        match r {
            Some(i) => i < v@.len() && first_of_type(views(v@), type_id) == Some(i as int),
            None => first_of_type(views(v@), type_id) == None::<int>,
        },
{
    let ghost p = |b: BuffInstanceView| b.type_id == type_id;
    let mut i: usize = 0;
    while i < v.len()
        invariant
            i <= v@.len(),
            p == (|b: BuffInstanceView| b.type_id == type_id),
            forall|j: int| 0 <= j < i ==> !p(#[trigger] views(v@)[j]),
        decreases v@.len() - i,
    {
        if v[i].type_id == type_id {
            proof { lemma_first_index_is(views(v@), p, i as int); }
            return Some(i);
        }
        i += 1;
    }
    proof { lemma_first_index_none(views(v@), p); }
    None
}

fn max_of_i32(a: i32, b: i32) -> (r: i32)
    ensures
        r == max_i32(a, b),
{
    if a < b { b } else { a }
}

impl BuffMgr {
    fn take_bucket(&mut self, uid: i64) -> (r: Option<Vec<BuffInstance>>)
        ensures
            final(self).wf() == old(self).wf(),
            match r {
                Some(v) => old(self)@.active.contains_key(uid) && views(v@) == old(self)@.active[uid],
                None => !old(self)@.active.contains_key(uid),
            },
            final(self)@ == (BuffMgrView { active: old(self)@.active.remove(uid), ..old(self)@ }),
    {
        let r = self.active.remove(&uid);
        proof {
            assert(self@.active =~= old(self)@.active.remove(uid));
        }
        r
    }

    fn put_bucket(&mut self, uid: i64, v: Vec<BuffInstance>)
        ensures
            final(self).wf() == old(self).wf(),
            final(self)@ == (BuffMgrView { active: old(self)@.active.insert(uid, views(v@)), ..old(self)@ }),
    {
        let ghost vv = views(v@);
        self.active.insert(uid, v);
        proof {
            assert(self@.active =~= old(self)@.active.insert(uid, vv));
        }
    }

    fn add_to_bucket(v: &mut Vec<BuffInstance>, inst: BuffInstance, stacked: bool)
        ensures
            views(final(v)@) == bucket_after_add(views(old(v)@), inst@, stacked),
    {
        let ghost iv = inst@;
        if stacked {
            v.push(inst);
            proof { lemma_views_push(old(v)@, inst); }
            return;
        }
        match first_with_buff_id(v, inst.buff_id) {
            Some(i) => {
                let e = &mut v[i];
                e.duration = max_of_i32(e.duration, inst.duration);
                e.stacks = inst.stacks;
                e.layer = inst.layer;
                proof {
                    assert(views(v@) =~= views(old(v)@).update(i as int, refreshed(views(old(v)@)[i as int], iv)));
                }
            },
            None => {
                v.push(inst);
                proof { lemma_views_push(old(v)@, inst); }
            },
        }
    }

    /// Adds `buff_id` from `from_uid` to `target_uid` with the next uid of
    /// the active lane; a positive `count` overrides the table's count.
    /// Stacked buffs always add an instance; others refresh the first
    /// instance of the same buff when there is one.
    pub fn add(
        &mut self,
        target_uid: i64,
        buff_id: i32,
        from_uid: i64,
        count: i32,
        layer: i32,
        cfg: &BattleConfig,
        uids: &mut BuffUidCounters,
    )
        ensures
            final(self).wf() == old(self).wf(),
            *final(uids) == spec_advance_lane(*old(uids), 2),
            final(self)@ == (BuffMgrView {
                active: old(self)@.active.insert(
                    target_uid,
                    bucket_after_add(
                        bucket(old(self)@.active, target_uid),
                        new_instance(*cfg, final(uids).lane_value(), buff_id, from_uid, count, layer),
                        cfg_stacked(*cfg, buff_id),
                    ),
                ),
                ..old(self)@
            }),
    {
        let mut entry = match self.take_bucket(target_uid) {
            Some(v) => v,
            None => {
                let v: Vec<BuffInstance> = Vec::new();
                proof { assert(views(v@) =~= Seq::<BuffInstanceView>::empty()); }
                v
            },
        };
        let mut instance = BuffInstance::build(buff_id, from_uid, cfg, uids);
        instance.stacks = if count > 0 { count } else { instance.stacks };
        instance.layer = layer;
        let stacked = Self::is_stacked_include_type(buff_id, cfg);
        Self::add_to_bucket(&mut entry, instance, stacked);
        self.put_bucket(target_uid, entry);
        proof {
            assert(self@.active =~= old(self)@.active.insert(
                target_uid,
                bucket_after_add(
                    bucket(old(self)@.active, target_uid),
                    new_instance(*cfg, uids.lane_value(), buff_id, from_uid, count, layer),
                    cfg_stacked(*cfg, buff_id),
                ),
            ));
        }
    }

    /// Adds or updates an instance with an explicit uid (from an emitted
    /// or replayed effect). An instance with that uid takes the new values,
    /// keeping the longer duration; otherwise as `add`, where a refreshed
    /// instance also takes the new uid.
    pub fn add_with_uid(
        &mut self,
        target_uid: i64,
        buff_id: i32,
        from_uid: i64,
        count: i32,
        layer: i32,
        buff_uid: i64,
        cfg: &BattleConfig,
    )
        ensures
            final(self).wf() == old(self).wf(),
            final(self)@ == (BuffMgrView {
                active: old(self)@.active.insert(
                    target_uid,
                    bucket_after_add_with_uid(
                        bucket(old(self)@.active, target_uid),
                        new_instance(*cfg, buff_uid, buff_id, from_uid, count, layer),
                        cfg_stacked(*cfg, buff_id),
                    ),
                ),
                ..old(self)@
            }),
    {
        let mut entry = match self.take_bucket(target_uid) {
            Some(v) => v,
            None => {
                let v: Vec<BuffInstance> = Vec::new();
                proof { assert(views(v@) =~= Seq::<BuffInstanceView>::empty()); }
                v
            },
        };
        let ghost old_entry = views(entry@);
        let (type_id, during_time, effect_count) = buff_row_values(cfg, buff_id);
        let instance = BuffInstance {
            uid: buff_uid,
            buff_id,
            type_id,
            from_uid,
            duration: during_time,
            stacks: if count > 0 { count } else { effect_count },
            layer,
            act_common_params: Vec::new(),
        };
        let ghost iv = instance@;
        proof {
            assert(instance@.params =~= Seq::<u8>::empty());
            assert(iv == new_instance(*cfg, buff_uid, buff_id, from_uid, count, layer));
        }
        match first_with_uid(&entry, buff_uid) {
            Some(i) => {
                let e = &mut entry[i];
                e.buff_id = instance.buff_id;
                e.type_id = instance.type_id;
                e.from_uid = instance.from_uid;
                e.duration = max_of_i32(e.duration, instance.duration);
                e.stacks = instance.stacks;
                e.layer = instance.layer;
                proof {
                    assert(views(entry@) =~= old_entry.update(
                        i as int,
                        BuffInstanceView {
                            buff_id: iv.buff_id,
                            type_id: iv.type_id,
                            from_uid: iv.from_uid,
                            ..refreshed(old_entry[i as int], iv)
                        },
                    ));
                }
            },
            None => {
                if Self::is_stacked_include_type(buff_id, cfg) {
                    entry.push(instance);
                    proof { assert(views(entry@) =~= old_entry.push(iv)); }
                } else {
                    match first_with_buff_id(&entry, buff_id) {
                        Some(i) => {
                            let e = &mut entry[i];
                            e.uid = buff_uid;
                            e.duration = max_of_i32(e.duration, instance.duration);
                            e.stacks = instance.stacks;
                            e.layer = instance.layer;
                            proof {
                                assert(views(entry@) =~= old_entry.update(
                                    i as int,
                                    BuffInstanceView { uid: iv.uid, ..refreshed(old_entry[i as int], iv) },
                                ));
                            }
                        },
                        None => {
                            entry.push(instance);
                            proof { assert(views(entry@) =~= old_entry.push(iv)); }
                        },
                    }
                }
            },
        }
        proof {
            assert(old_entry == bucket(old(self)@.active, target_uid));
            assert(views(entry@) == bucket_after_add_with_uid(old_entry, iv, cfg_stacked(*cfg, buff_id)));
        }
        self.put_bucket(target_uid, entry);
        proof {
            assert(self@.active =~= old(self)@.active.insert(
                target_uid,
                bucket_after_add_with_uid(old_entry, iv, cfg_stacked(*cfg, buff_id)),
            ));
        }
    }
}

/// The instances of `s` whose uid is not `buff_uid`, in order.
pub open spec fn without_uid(s: Seq<BuffInstanceView>, buff_uid: i64) -> Seq<BuffInstanceView> {
    s.filter(|b: BuffInstanceView| b.uid != buff_uid)
}

/// The instances of `s` whose uid is `buff_uid`, in order.
pub open spec fn with_uid(s: Seq<BuffInstanceView>, buff_uid: i64) -> Seq<BuffInstanceView> {
    s.filter(|b: BuffInstanceView| b.uid == buff_uid)
}

/// A stacked drop-damage buff, the kind `consume_one_stacked_drop_dmg` eats.
pub open spec fn is_drop_candidate(cfg: BattleConfig, b: BuffInstanceView) -> bool {
    cfg_stacked(cfg, b.buff_id) && cfg_drop_dmg(cfg, b.buff_id)
}

/// `i` is the first candidate with the smallest uid.
pub open spec fn is_oldest_candidate(cfg: BattleConfig, s: Seq<BuffInstanceView>, i: int) -> bool {
    &&& 0 <= i < s.len()
    &&& is_drop_candidate(cfg, s[i])
    &&& forall|j: int| 0 <= j < s.len() && is_drop_candidate(cfg, #[trigger] s[j]) ==> s[i].uid <= s[j].uid
    &&& forall|j: int| 0 <= j < i && is_drop_candidate(cfg, #[trigger] s[j]) ==> s[i].uid < s[j].uid
}

/// The instance left after consuming one layer or count of `b`, if any.
pub open spec fn consumed(b: BuffInstanceView) -> Option<BuffInstanceView> {
    if b.layer > 1 {
        Some(BuffInstanceView { layer: (b.layer - 1) as i32, ..b })
    } else if b.layer == 1 {
        None
    } else if b.stacks > 1 {
        Some(BuffInstanceView { stacks: (b.stacks - 1) as i32, ..b })
    } else {
        None
    }
}

impl BuffMgr {
    /// Sets the remaining duration (floored at zero) of the first instance
    /// on `target_uid` with uid `buff_uid`; returns whether there was one.
    pub fn set_instance_duration(&mut self, target_uid: i64, buff_uid: i64, duration: i32) -> (r: bool)
        ensures
            final(self).wf() == old(self).wf(),
            r == first_of_uid(bucket(old(self)@.active, target_uid), buff_uid).is_some(),
            final(self)@ == (match first_of_uid(bucket(old(self)@.active, target_uid), buff_uid) {
                Some(i) => BuffMgrView {
                    active: old(self)@.active.insert(
                        target_uid,
                        old(self)@.active[target_uid].update(
                            i,
                            BuffInstanceView { duration: max_i32(duration, 0), ..old(self)@.active[target_uid][i] },
                        ),
                    ),
                    ..old(self)@
                },
                None => old(self)@,
            }),
    {
        let mut entry = match self.take_bucket(target_uid) {
            Some(v) => v,
            None => {
                proof { lemma_first_index_none(Seq::<BuffInstanceView>::empty(), |b: BuffInstanceView| b.uid == buff_uid); }
                proof { assert(self@.active =~= old(self)@.active); }
                return false;
            },
        };
        let ghost old_entry = views(entry@);
        match first_with_uid(&entry, buff_uid) {
            Some(i) => {
                let e = &mut entry[i];
                e.duration = max_of_i32(duration, 0);
                proof {
                    assert(views(entry@) =~= old_entry.update(i as int, BuffInstanceView { duration: max_i32(duration, 0), ..old_entry[i as int] }));
                }
                self.put_bucket(target_uid, entry);
                proof { assert(self@.active =~= old(self)@.active.insert(target_uid, views(entry@))); }
                true
            },
            None => {
                self.put_bucket(target_uid, entry);
                proof { assert(self@.active =~= old(self)@.active); }
                false
            },
        }
    }

    /// Sets the layer (floored at zero) of the first instance on
    /// `target_uid` with uid `buff_uid`; returns whether there was one.
    pub fn set_instance_layer(&mut self, target_uid: i64, buff_uid: i64, layer: i32) -> (r: bool)
        ensures
            final(self).wf() == old(self).wf(),
            r == first_of_uid(bucket(old(self)@.active, target_uid), buff_uid).is_some(),
            final(self)@ == (match first_of_uid(bucket(old(self)@.active, target_uid), buff_uid) {
                Some(i) => BuffMgrView {
                    active: old(self)@.active.insert(
                        target_uid,
                        old(self)@.active[target_uid].update(
                            i,
                            BuffInstanceView { layer: max_i32(layer, 0), ..old(self)@.active[target_uid][i] },
                        ),
                    ),
                    ..old(self)@
                },
                None => old(self)@,
            }),
    {
        let mut entry = match self.take_bucket(target_uid) {
            Some(v) => v,
            None => {
                proof { lemma_first_index_none(Seq::<BuffInstanceView>::empty(), |b: BuffInstanceView| b.uid == buff_uid); }
                proof { assert(self@.active =~= old(self)@.active); }
                return false;
            },
        };
        let ghost old_entry = views(entry@);
        match first_with_uid(&entry, buff_uid) {
            Some(i) => {
                let e = &mut entry[i];
                e.layer = max_of_i32(layer, 0);
                proof {
                    assert(views(entry@) =~= old_entry.update(i as int, BuffInstanceView { layer: max_i32(layer, 0), ..old_entry[i as int] }));
                }
                self.put_bucket(target_uid, entry);
                proof { assert(self@.active =~= old(self)@.active.insert(target_uid, views(entry@))); }
                true
            },
            None => {
                self.put_bucket(target_uid, entry);
                proof { assert(self@.active =~= old(self)@.active); }
                false
            },
        }
    }

    /// Replaces the common act parameters of the first instance on
    /// `target_uid` with uid `buff_uid`; returns whether there was one.
    pub fn set_instance_act_common_params(&mut self, target_uid: i64, buff_uid: i64, params: Vec<u8>) -> (r: bool)
        ensures
            final(self).wf() == old(self).wf(),
            r == first_of_uid(bucket(old(self)@.active, target_uid), buff_uid).is_some(),
            final(self)@ == (match first_of_uid(bucket(old(self)@.active, target_uid), buff_uid) {
                Some(i) => BuffMgrView {
                    active: old(self)@.active.insert(
                        target_uid,
                        old(self)@.active[target_uid].update(
                            i,
                            BuffInstanceView { params: params@, ..old(self)@.active[target_uid][i] },
                        ),
                    ),
                    ..old(self)@
                },
                None => old(self)@,
            }),
    {
        let mut entry = match self.take_bucket(target_uid) {
            Some(v) => v,
            None => {
                proof { lemma_first_index_none(Seq::<BuffInstanceView>::empty(), |b: BuffInstanceView| b.uid == buff_uid); }
                proof { assert(self@.active =~= old(self)@.active); }
                return false;
            },
        };
        let ghost old_entry = views(entry@);
        match first_with_uid(&entry, buff_uid) {
            Some(i) => {
                let e = &mut entry[i];
                let ghost pv = params@;
                e.act_common_params = params;
                proof {
                    assert(views(entry@) =~= old_entry.update(i as int, BuffInstanceView { params: pv, ..old_entry[i as int] }));
                }
                self.put_bucket(target_uid, entry);
                proof { assert(self@.active =~= old(self)@.active.insert(target_uid, views(entry@))); }
                true
            },
            None => {
                self.put_bucket(target_uid, entry);
                proof { assert(self@.active =~= old(self)@.active); }
                false
            },
        }
    }

    /// The first instance on `uid` whose type is `type_id`.
    pub fn find_instance_by_type_id(&self, uid: i64, type_id: i32) -> (r: Option<&BuffInstance>)
        ensures
            match first_of_type(bucket(self@.active, uid), type_id) {
                Some(i) => r.is_some() && r.unwrap()@ == bucket(self@.active, uid)[i],
                None => r.is_none(),
            },
    {
        let buffs = self.get(uid);
        match first_with_type_id(buffs, type_id) {
            Some(i) => Some(&buffs[i]),
            None => None,
        }
    }

    /// Removes every instance on `uid`, recording their ids as deleted.
    pub fn clear(&mut self, uid: i64)
        ensures
            final(self).wf() == old(self).wf(),
            final(self)@ == (BuffMgrView {
                active: old(self)@.active.remove(uid),
                step_deleted: old(self)@.step_deleted + deleted_of(bucket(old(self)@.active, uid)),
                ..old(self)@
            }),
    {
        match self.take_bucket(uid) {
            None => {
                proof {
                    assert(self@.step_deleted =~= old(self)@.step_deleted + deleted_of(Seq::<BuffInstanceView>::empty()));
                }
            },
            Some(buffs) => {
                let ghost base = self.step_deleted_buff_ids@;
                let ghost mid_active = self@.active;
                let mut i: usize = 0;
                while i < buffs.len()
                    invariant
                        i <= buffs@.len(),
                        self.step_deleted_buff_ids@ == base + deleted_of(views(buffs@.take(i as int))),
                        self@.active == mid_active,
                        self@.teammate_injury == old(self)@.teammate_injury,
                        self@.slot_usage == old(self)@.slot_usage,
                        self.wf() == old(self).wf(),
                    decreases buffs@.len() - i,
                {
                    proof { lemma_views_take(buffs@, i as int); }
                    record_deleted(&mut self.step_deleted_buff_ids, &buffs[i]);
                    proof {
                        assert(base + deleted_of(views(buffs@.take(i as int + 1))) =~= base + deleted_of(views(buffs@.take(i as int))) + deleted_ids(buffs@[i as int]@));
                    }
                    i += 1;
                }
                proof { assert(buffs@.take(buffs@.len() as int) =~= buffs@); }
            },
        }
    }

    /// Removes the instances on `uid` whose uid is `buff_uid`, recording
    /// their ids as deleted; the bucket stays even when it empties.
    pub fn remove_by_uid(&mut self, uid: i64, buff_uid: i64)
        ensures
            final(self).wf() == old(self).wf(),
            final(self)@ == (if old(self)@.active.contains_key(uid) {
                BuffMgrView {
                    active: old(self)@.active.insert(uid, without_uid(old(self)@.active[uid], buff_uid)),
                    step_deleted: old(self)@.step_deleted + deleted_of(with_uid(old(self)@.active[uid], buff_uid)),
                    ..old(self)@
                }
            } else {
                old(self)@
            }),
    {
        match self.take_bucket(uid) {
            None => {
                proof { assert(self@.active =~= old(self)@.active); }
            },
            Some(buffs) => {
                let ghost s = views(buffs@);
                let ghost base = self.step_deleted_buff_ids@;
                let ghost keep = |b: BuffInstanceView| b.uid != buff_uid;
                let ghost drop = |b: BuffInstanceView| b.uid == buff_uid;
                let ghost mid_active = self@.active;
                let mut kept: Vec<BuffInstance> = Vec::new();
                let mut i: usize = 0;
                while i < buffs.len()
                    invariant
                        s == views(buffs@),
                        keep == (|b: BuffInstanceView| b.uid != buff_uid),
                        drop == (|b: BuffInstanceView| b.uid == buff_uid),
                        i <= s.len(),
                        views(kept@) == s.take(i as int).filter(keep),
                        self.step_deleted_buff_ids@ == base + deleted_of(s.take(i as int).filter(drop)),
                        self@.active == mid_active,
                        self@.teammate_injury == old(self)@.teammate_injury,
                        self@.slot_usage == old(self)@.slot_usage,
                        self.wf() == old(self).wf(),
                    decreases s.len() - i,
                {
                    let b = &buffs[i];
                    proof {
                        assert(s.take(i as int + 1).drop_last() =~= s.take(i as int));
                        assert(s.take(i as int + 1).last() == b@);
                        reveal(Seq::filter);
                    }
                    if b.uid == buff_uid {
                        let ghost before = self.step_deleted_buff_ids@;
                        record_deleted(&mut self.step_deleted_buff_ids, b);
                        proof {
                            let f = s.take(i as int).filter(drop);
                            assert(s.take(i as int + 1).filter(drop) == f.push(b@));
                            assert(f.push(b@).drop_last() =~= f);
                            assert(deleted_of(f.push(b@)) == deleted_of(f) + deleted_ids(b@));
                            assert(self.step_deleted_buff_ids@ =~= base + deleted_of(s.take(i as int + 1).filter(drop)));
                        }
                    } else {
                        let c = b.clone();
                        kept.push(c);
                        proof {
                            assert(views(kept@) =~= s.take(i as int + 1).filter(keep));
                        }
                    }
                    i += 1;
                }
                proof {
                    assert(s.take(s.len() as int) =~= s);
                }
                self.put_bucket(uid, kept);
                proof { assert(self@.active =~= old(self)@.active.insert(uid, without_uid(s, buff_uid))); }
            },
        }
    }
}

/// The result view of a consumption.
pub open spec fn result_view(r: StackConsumeResult) -> (bool, BuffInstanceView) {
    match r {
        StackConsumeResult::Updated(b) => (true, b@),
        StackConsumeResult::Removed(b) => (false, b@),
    }
}

/// The bucket after consuming at `i`.
pub open spec fn bucket_after_consume(s: Seq<BuffInstanceView>, i: int) -> Seq<BuffInstanceView> {
    match consumed(s[i]) {
        Some(b) => s.update(i, b),
        None => s.remove(i),
    }
}

/// Consuming at the oldest candidate `i` of the bucket of `target_uid`
/// in `old` returns `res` and leaves `new`.
pub open spec fn consume_outcome(
    cfg: BattleConfig,
    old: BuffMgrView,
    target_uid: i64,
    i: int,
    res: StackConsumeResult,
    new: BuffMgrView,
) -> bool {
    let s = bucket(old.active, target_uid);
    let after = bucket_after_consume(s, i);
    &&& is_oldest_candidate(cfg, s, i)
    &&& result_view(res) == match consumed(s[i]) {
        Some(b) => (true, b),
        None => (false, s[i]),
    }
    &&& new == BuffMgrView {
        active: if after.len() == 0 {
            old.active.remove(target_uid)
        } else {
            old.active.insert(target_uid, after)
        },
        step_deleted: if consumed(s[i]).is_none() {
            old.step_deleted + deleted_ids(s[i])
        } else {
            old.step_deleted
        },
        ..old
    }
}

impl BuffMgr {
    /// Consumes one layer (or, without layers, one count) of the oldest
    /// (smallest uid, first on ties) stacked drop-damage buff on
    /// `target_uid`. The buff is removed (and recorded as deleted) when it
    /// had its last layer or count; an emptied bucket is dropped. Returns
    /// `None`, changing nothing, when the target has no such buff.
    pub fn consume_one_stacked_drop_dmg(&mut self, target_uid: i64, cfg: &BattleConfig) -> (r: Option<StackConsumeResult>)
        ensures
            final(self).wf() == old(self).wf(),
            match r {
                None => {
                    &&& final(self)@ == old(self)@
                    &&& forall|j: int| 0 <= j < bucket(old(self)@.active, target_uid).len()
                        ==> !is_drop_candidate(*cfg, #[trigger] bucket(old(self)@.active, target_uid)[j])
                },
                Some(res) => exists|i: int| #[trigger] consume_outcome(*cfg, old(self)@, target_uid, i, res, final(self)@),
            },
    {
        let mut buffs = match self.take_bucket(target_uid) {
            Some(v) => v,
            None => {
                proof { assert(self@.active =~= old(self)@.active); }
                return None;
            },
        };
        let ghost s = views(buffs@);
        let mut best: Option<usize> = None;
        let mut i: usize = 0;
        while i < buffs.len()
            invariant
                s == views(buffs@),
                i <= s.len(),
                match best {
                    None => forall|j: int| 0 <= j < i ==> !is_drop_candidate(*cfg, #[trigger] s[j]),
                    Some(k) => {
                        &&& k < i
                        &&& is_drop_candidate(*cfg, s[k as int])
                        &&& forall|j: int| 0 <= j < i && is_drop_candidate(*cfg, #[trigger] s[j]) ==> s[k as int].uid <= s[j].uid
                        &&& forall|j: int| 0 <= j < k && is_drop_candidate(*cfg, #[trigger] s[j]) ==> s[k as int].uid < s[j].uid
                    },
                },
            decreases s.len() - i,
        {
            let id = buffs[i].buff_id;
            if Self::is_stacked_include_type(id, cfg) && Self::is_drop_dmg_attr_buff(id, cfg) {
                match best {
                    None => {
                        best = Some(i);
                    },
                    Some(k) => {
                        if buffs[i].uid < buffs[k].uid {
                            best = Some(i);
                        }
                    },
                }
            }
            i += 1;
        }
        let idx = match best {
            Some(k) => k,
            None => {
                self.put_bucket(target_uid, buffs);
                proof { assert(self@.active =~= old(self)@.active); }
                return None;
            },
        };
        let ghost base_deleted = self@.step_deleted;
        let result = if buffs[idx].layer > 1 {
            let e = &mut buffs[idx];
            e.layer = e.layer - 1;
            proof {
                assert(views(buffs@) =~= s.update(idx as int, BuffInstanceView { layer: (s[idx as int].layer - 1) as i32, ..s[idx as int] }));
            }
            StackConsumeResult::Updated(buffs[idx].clone())
        } else if buffs[idx].layer == 1 {
            let removed = buffs.remove(idx);
            proof { assert(views(buffs@) =~= s.remove(idx as int)); }
            record_deleted(&mut self.step_deleted_buff_ids, &removed);
            StackConsumeResult::Removed(removed)
        } else if buffs[idx].stacks > 1 {
            let e = &mut buffs[idx];
            e.stacks = e.stacks - 1;
            proof {
                assert(views(buffs@) =~= s.update(idx as int, BuffInstanceView { stacks: (s[idx as int].stacks - 1) as i32, ..s[idx as int] }));
            }
            StackConsumeResult::Updated(buffs[idx].clone())
        } else {
            let removed = buffs.remove(idx);
            proof { assert(views(buffs@) =~= s.remove(idx as int)); }
            record_deleted(&mut self.step_deleted_buff_ids, &removed);
            StackConsumeResult::Removed(removed)
        };
        proof {
            assert(views(buffs@) == bucket_after_consume(s, idx as int));
            assert(is_oldest_candidate(*cfg, s, idx as int));
        }
        if buffs.len() == 0 {
            proof {
                assert(self@.active =~= old(self)@.active.remove(target_uid));
            }
        } else {
            self.put_bucket(target_uid, buffs);
            proof {
                assert(self@.active =~= old(self)@.active.insert(target_uid, bucket_after_consume(s, idx as int)));
            }
        }
        proof {
            assert(consume_outcome(*cfg, old(self)@, target_uid, idx as int, result, self@));
        }
        Some(result)
    }
}

/// An instance after a round tick: a positive duration drops by one.
pub open spec fn ticked(b: BuffInstanceView) -> BuffInstanceView {
    if b.duration > 0 { BuffInstanceView { duration: (b.duration - 1) as i32, ..b } } else { b }
}

/// Whether an instance survives the round end: untimed buffs always do;
/// timed ones while they have duration left or no stacks.
pub open spec fn survives(cfg: BattleConfig, b: BuffInstanceView) -> bool {
    !cfg_is_timed(cfg, b.buff_id) || b.duration != 0 || b.stacks == 0
}

/// A bucket at round end: every instance ticks, then expired timed
/// instances with stacks left are dropped.
pub open spec fn bucket_at_round_end(cfg: BattleConfig, s: Seq<BuffInstanceView>) -> Seq<BuffInstanceView> {
    s.map_values(|b: BuffInstanceView| ticked(b)).filter(|b: BuffInstanceView| survives(cfg, b))
}

/// The instances of the buckets of `ks`, in that key order, each paired
/// with its target.
pub open spec fn flatten_buckets(ks: Seq<i64>, m: Map<i64, Seq<BuffInstanceView>>) -> Seq<(i64, BuffInstanceView)>
    decreases ks.len(),
{
    if ks.len() == 0 {
        Seq::empty()
    } else {
        flatten_buckets(ks.drop_last(), m) + bucket(m, ks.last()).map_values(|b: BuffInstanceView| (ks.last(), b))
    }
}

/// `ks` lists every key of `m` once.
pub open spec fn is_key_order(ks: Seq<i64>, m: Map<i64, Seq<BuffInstanceView>>) -> bool {
    ks.no_duplicates() && ks.to_set() == m.dom()
}

fn timed_flag(cfg: &BattleConfig, buff_id: i32) -> (r: bool)
    ensures
        r == cfg_is_timed(*cfg, buff_id),
{
    match find_buff_row(&cfg.skill_buff, buff_id) {
        Some(i) => cfg.skill_buff[i].during_time > 0,
        None => false,
    }
}

fn vec_contains_i64(v: &Vec<i64>, x: i64) -> (r: bool)
    ensures
        r == v@.contains(x),
{
    let mut i: usize = 0;
    while i < v.len()
        invariant
            i <= v@.len(),
            forall|j: int| 0 <= j < i ==> v@[j] != x,
        decreases v@.len() - i,
    {
        if v[i] == x {
            proof { assert(v@[i as int] == x); }
            return true;
        }
        i += 1;
    }
    false
}

impl BuffMgr {
    pub(crate) fn active_keys(&self) -> (r: Vec<i64>)
        ensures
            is_key_order(r@, self@.active),
    {
        let mut out: Vec<i64> = Vec::new();
        let ghost m = self.active@;
        for item in it: self.active.iter()
            invariant
                m == self.active@,
                forall|k: i64| #[trigger] m.contains_key(k) ==> exists|i: int| 0 <= i < it.seq().len() && *it.seq()[i].0 == k,
                forall|i: int| 0 <= i < it.seq().len() ==> m.contains_key(*it.seq()[i].0),
                forall|i: int| 0 <= i < it.index() ==> out@.contains(*it.seq()[i].0),
                forall|x: i64| #[trigger] out@.contains(x) ==> m.contains_key(x),
                out@.no_duplicates(),
        {
            let (k, _v) = item;
            proof {
                let n = it.index() as int;
                assert(*it.seq()[n].0 == *k);
            }
            if !vec_contains_i64(&out, *k) {
                let ghost before = out@;
                out.push(*k);
                proof {
                    assert forall|i: int, j: int| 0 <= i < out@.len() && 0 <= j < out@.len() && i != j implies out@[i] != out@[j] by {
                        if i < before.len() && j < before.len() {
                        } else if i == before.len() {
                            assert(before.contains(out@[j]) ==> out@[j] != *k);
                            assert(out@[j] == before[j]);
                        } else {
                            assert(out@[i] == before[i]);
                        }
                    }
                    assert forall|i: int| 0 <= i < it.index() + 1 implies out@.contains(*it.seq()[i].0) by {
                        if i < it.index() {
                            assert(before.contains(*it.seq()[i].0));
                            let j = choose|j: int| 0 <= j < before.len() && before[j] == *it.seq()[i].0;
                            assert(out@[j] == before[j]);
                        } else {
                            assert(out@[before.len() as int] == *k);
                        }
                    }
                    assert forall|x: i64| #[trigger] out@.contains(x) implies m.contains_key(x) by {
                        let j = choose|j: int| 0 <= j < out@.len() && out@[j] == x;
                        if j < before.len() {
                            assert(before[j] == x);
                            assert(before.contains(x));
                        }
                    }
                }
            }
        }
        proof {
            assert forall|k: i64| out@.to_set().contains(k) == self@.active.dom().contains(k) by {
                if m.contains_key(k) {
                    assert(out@.contains(k));
                }
            }
            assert(out@.to_set() =~= self@.active.dom());
        }
        out
    }
}

/// The buckets after the round end, every one ticked and filtered.
pub open spec fn active_at_round_end(cfg: BattleConfig, m: Map<i64, Seq<BuffInstanceView>>) -> Map<i64, Seq<BuffInstanceView>> {
    Map::new(|k: i64| m.contains_key(k), |k: i64| bucket_at_round_end(cfg, m[k]))
}

/// The views of (target, instance) pairs.
pub open spec fn pair_views(v: Seq<(i64, BuffInstance)>) -> Seq<(i64, BuffInstanceView)> {
    v.map_values(|p: (i64, BuffInstance)| (p.0, p.1@))
}

/// `v` is the largest of `init` and the uids of the instances on the
/// targets of one side (`uid >= 0` attacker, `uid < 0` defender).
pub open spec fn is_side_max(m: Map<i64, Seq<BuffInstanceView>>, attacker: bool, init: i64, v: i64) -> bool {
    &&& v >= init
    &&& forall|t: i64, j: int| m.contains_key(t) && (t >= 0) == attacker && 0 <= j < m[t].len() ==> #[trigger] m[t][j].uid <= v
    &&& (v == init || exists|t: i64, j: int| m.contains_key(t) && (t >= 0) == attacker && 0 <= j < m[t].len() && #[trigger] m[t][j].uid == v)
}

fn round_end_bucket(v: &Vec<BuffInstance>, cfg: &BattleConfig) -> (r: Vec<BuffInstance>)
    ensures
        views(r@) == bucket_at_round_end(*cfg, views(v@)),
{
    let ghost s = views(v@);
    let ghost t = s.map_values(|b: BuffInstanceView| ticked(b));
    let ghost keep = |b: BuffInstanceView| survives(*cfg, b);
    let mut out: Vec<BuffInstance> = Vec::new();
    let mut i: usize = 0;
    while i < v.len()
        invariant
            s == views(v@),
            t == s.map_values(|b: BuffInstanceView| ticked(b)),
            keep == (|b: BuffInstanceView| survives(*cfg, b)),
            i <= v@.len(),
            views(out@) == t.take(i as int).filter(keep),
        decreases v@.len() - i,
    {
        let mut b = v[i].clone();
        if b.duration > 0 {
            b.duration = b.duration - 1;
        }
        let keep_it = !timed_flag(cfg, b.buff_id) || b.duration != 0 || b.stacks == 0;
        proof {
            assert(b@ == t[i as int]);
            assert(t.take(i as int + 1).drop_last() =~= t.take(i as int));
            assert(t.take(i as int + 1).last() == t[i as int]);
            reveal(Seq::filter);
        }
        if keep_it {
            let ghost before = out@;
            out.push(b);
            proof { assert(views(out@) =~= views(before).push(t[i as int])); }
        }
        i += 1;
    }
    proof { assert(t.take(v@.len() as int) =~= t); }
    out
}

impl BuffMgr {
    /// Every (target, instance) pair, bucket by bucket in some order of the
    /// targets, instances in insertion order.
    pub fn all_instances(&self) -> (r: Vec<(i64, BuffInstance)>)
        ensures
            exists|ks: Seq<i64>| is_key_order(ks, self@.active) && #[trigger] flatten_buckets(ks, self@.active) == pair_views(r@),
    {
        let ks = self.active_keys();
        let mut out: Vec<(i64, BuffInstance)> = Vec::new();
        let mut i: usize = 0;
        while i < ks.len()
            invariant
                is_key_order(ks@, self@.active),
                i <= ks@.len(),
                pair_views(out@) == flatten_buckets(ks@.take(i as int), self@.active),
            decreases ks@.len() - i,
        {
            let k = ks[i];
            let buffs = self.get(k);
            let ghost before = pair_views(out@);
            let mut j: usize = 0;
            while j < buffs.len()
                invariant
                    j <= buffs@.len(),
                    views(buffs@) == bucket(self@.active, k),
                    pair_views(out@) == before + views(buffs@).take(j as int).map_values(|b: BuffInstanceView| (k, b)),
                decreases buffs@.len() - j,
            {
                let c = buffs[j].clone();
                let ghost o = out@;
                out.push((k, c));
                proof {
                    assert(pair_views(out@) =~= pair_views(o).push((k, buffs@[j as int]@)));
                    assert(views(buffs@).take(j as int + 1).map_values(|b: BuffInstanceView| (k, b)) =~= views(buffs@).take(
                        j as int,
                    ).map_values(|b: BuffInstanceView| (k, b)).push((k, buffs@[j as int]@)));
                }
                j += 1;
            }
            proof {
                assert(views(buffs@).take(buffs@.len() as int) =~= views(buffs@));
                assert(ks@.take(i as int + 1).drop_last() =~= ks@.take(i as int));
                assert(ks@.take(i as int + 1).last() == k);
            }
            i += 1;
        }
        proof { assert(ks@.take(ks@.len() as int) =~= ks@); }
        out
    }
}

impl Manager for BuffMgr {
    /// Round end: every positive duration drops by one, then timed buffs
    /// that ran out while holding stacks expire. Buckets stay.
    fn on_round_end(&mut self, cfg: &BattleConfig)
        ensures
            final(self).wf() == old(self).wf(),
            final(self)@ == (BuffMgrView { active: active_at_round_end(*cfg, old(self)@.active), ..old(self)@ }),
    {
        let ks = self.active_keys();
        let ghost m = old(self)@.active;
        proof {
            assert(self@.active =~= Map::new(
                |k: i64| m.contains_key(k),
                |k: i64| if ks@.take(0).contains(k) { bucket_at_round_end(*cfg, m[k]) } else { m[k] },
            ));
        }
        let mut i: usize = 0;
        while i < ks.len()
            invariant
                is_key_order(ks@, m),
                i <= ks@.len(),
                self.wf() == old(self).wf(),
                self@ == (BuffMgrView {
                    active: Map::new(
                        |k: i64| m.contains_key(k),
                        |k: i64| if ks@.take(i as int).contains(k) { bucket_at_round_end(*cfg, m[k]) } else { m[k] },
                    ),
                    ..old(self)@
                }),
            decreases ks@.len() - i,
        {
            let k = ks[i];
            proof {
                assert(ks@.to_set().contains(k));
                assert(m.contains_key(k));
                assert(!ks@.take(i as int).contains(k)) by {
                    if ks@.take(i as int).contains(k) {
                        let j = choose|j: int| 0 <= j < i && ks@.take(i as int)[j] == k;
                        assert(ks@[j] == ks@[i as int]);
                    }
                }
            }
            let ghost prev = self@.active;
            match self.take_bucket(k) {
                Some(v) => {
                    assert(views(v@) == m[k]);
                    let nv = round_end_bucket(&v, cfg);
                    self.put_bucket(k, nv);
                    proof {
                        assert(self@.active == prev.remove(k).insert(k, bucket_at_round_end(*cfg, m[k])));
                    }
                },
                None => {},
            }
            proof {
                assert(ks@.take(i as int + 1) =~= ks@.take(i as int).push(k));
                assert forall|k2: i64| ks@.take(i as int + 1).contains(k2) == (ks@.take(i as int).contains(k2) || k2 == k) by {
                    if k2 == k {
                        assert(ks@.take(i as int + 1)[i as int] == k);
                    }
                    if ks@.take(i as int).contains(k2) {
                        let j = choose|j: int| 0 <= j < i && ks@.take(i as int)[j] == k2;
                        assert(ks@.take(i as int + 1)[j] == k2);
                    }
                }
                assert(self@.active =~= Map::new(
                    |k2: i64| m.contains_key(k2),
                    |k2: i64| if ks@.take(i as int + 1).contains(k2) { bucket_at_round_end(*cfg, m[k2]) } else { m[k2] },
                ));
            }
            i += 1;
        }
        proof {
            assert(ks@.take(ks@.len() as int) =~= ks@);
            assert forall|k: i64| m.contains_key(k) implies ks@.contains(k) by {
                assert(ks@.to_set().contains(k));
            }
            assert(self@.active =~= active_at_round_end(*cfg, m));
        }
    }

    /// Forgets every buff, teammate injury and slot usage.
    fn on_battle_end(&mut self)
        ensures
            final(self)@ == (BuffMgrView {
                active: Map::empty(),
                teammate_injury: Map::empty(),
                slot_usage: Map::empty(),
                ..old(self)@
            }),
    {
        self.active.clear();
        self.teammate_injury_not_reset.clear();
        self.skill_slot_round_usage.clear();
        proof {
            assert(self@.active =~= Map::empty());
            assert(self@.slot_usage =~= Map::empty());
        }
    }
}

/// `v` is the largest of `init` and the uids of the instances on the
/// targets in `keys` of one side, counting only the first `lim(t)`
/// instances of each.
pub open spec fn is_partial_max(
    m: Map<i64, Seq<BuffInstanceView>>,
    keys: Set<i64>,
    cur: i64,
    cur_len: int,
    attacker: bool,
    init: i64,
    v: i64,
) -> bool {
    &&& v >= init
    &&& forall|t: i64, j: int| keys.contains(t) && m.contains_key(t) && (t >= 0) == attacker && 0 <= j < m[t].len() ==> #[trigger] m[t][j].uid <= v
    &&& ((cur >= 0) == attacker && m.contains_key(cur) ==> forall|j: int| 0 <= j < cur_len ==> #[trigger] m[cur][j].uid <= v)
    &&& (v == init || exists|t: i64, j: int| m.contains_key(t) && (t >= 0) == attacker && 0 <= j < m[t].len() && (keys.contains(t) || (t == cur && j < cur_len)) && #[trigger] m[t][j].uid == v)
}

/// Sets each side counter to the largest buff uid present on that side
/// (at least `0` for attackers and `DEFENDER_BUFF_UID_START` for
/// defenders). The lane is unchanged.
pub fn sync_buff_uid_counters_from_mgr(c: &mut BuffUidCounters, mgr: &BuffMgr)
    ensures
        is_side_max(mgr@.active, true, 0, final(c).attacker),
        is_side_max(mgr@.active, false, DEFENDER_BUFF_UID_START, final(c).defender),
        final(c).defender_lane == old(c).defender_lane,
{
    let ks = mgr.active_keys();
    let ghost m = mgr@.active;
    let mut attacker_max: i64 = 0;
    let mut defender_max: i64 = DEFENDER_BUFF_UID_START;
    let mut i: usize = 0;
    while i < ks.len()
        invariant
            m == mgr@.active,
            is_key_order(ks@, m),
            i <= ks@.len(),
            is_partial_max(m, ks@.take(i as int).to_set(), 0, 0, true, 0, attacker_max),
            is_partial_max(m, ks@.take(i as int).to_set(), 0, 0, false, DEFENDER_BUFF_UID_START, defender_max),
        decreases ks@.len() - i,
    {
        let t = ks[i];
        let buffs = mgr.get(t);
        let ghost done = ks@.take(i as int).to_set();
        proof {
            assert(ks@.to_set().contains(t));
        }
        let mut j: usize = 0;
        while j < buffs.len()
            invariant
                m == mgr@.active,
                m.contains_key(t),
                views(buffs@) == m[t],
                j <= buffs@.len(),
                is_partial_max(m, done, t, j as int, true, 0, attacker_max),
                is_partial_max(m, done, t, j as int, false, DEFENDER_BUFF_UID_START, defender_max),
            decreases buffs@.len() - j,
        {
            let u = buffs[j].uid;
            proof { assert(m[t][j as int].uid == u); }
            if t < 0 {
                if defender_max < u {
                    defender_max = u;
                }
            } else {
                if attacker_max < u {
                    attacker_max = u;
                }
            }
            j += 1;
        }
        proof {
            assert(ks@.take(i as int + 1).to_set() =~= done.insert(t)) by {
                assert(ks@.take(i as int + 1) =~= ks@.take(i as int).push(t));
                ks@.take(i as int).lemma_push_to_set_commute(t);
            }
        }
        i += 1;
    }
    proof {
        assert(ks@.take(ks@.len() as int) =~= ks@);
        assert(ks@.to_set() == m.dom());
    }
    c.attacker = attacker_max;
    c.defender = defender_max;
}

/// The buffs an entity carries (effective, then inactive), each paired
/// with the entity's uid; none for an entity without a nonzero uid.
pub open spec fn entity_buff_items(e: FightEntityInfo) -> Seq<(i64, BuffInfo)> {
    let t = opt_or(e.uid, 0i64);
    if t == 0 {
        Seq::empty()
    } else {
        (e.buffs@ + e.no_effect_buffs@).map_values(|b: BuffInfo| (t, b))
    }
}

/// The buffs of a list of entities, in order.
pub open spec fn buff_items(es: Seq<FightEntityInfo>) -> Seq<(i64, BuffInfo)>
    decreases es.len(),
{
    if es.len() == 0 { Seq::empty() } else { buff_items(es.drop_last()) + entity_buff_items(es.last()) }
}

/// Counters and buckets after importing one snapshot buff onto `t`:
/// buffs without id or uid are skipped; others keep the counter of the
/// side ahead of their uid and are added with that uid.
pub open spec fn import_one(
    cfg: BattleConfig,
    st: (BuffUidCounters, Map<i64, Seq<BuffInstanceView>>),
    t: i64,
    b: BuffInfo,
) -> (BuffUidCounters, Map<i64, Seq<BuffInstanceView>>) {
    let id = opt_or(b.buff_id, 0i32);
    let bu = opt_or(b.uid, 0i64);
    if id == 0 || bu == 0 {
        st
    } else {
        (
            spec_observe(st.0, t, bu),
            st.1.insert(
                t,
                bucket_after_add_with_uid(
                    bucket(st.1, t),
                    new_instance(cfg, bu, id, opt_or(b.from_uid, 0i64), opt_or(b.count, 0i32), opt_or(b.layer, 0i32)),
                    cfg_stacked(cfg, id),
                ),
            ),
        )
    }
}

/// Counters and buckets after importing `items` in order.
pub open spec fn import_fold(
    cfg: BattleConfig,
    items: Seq<(i64, BuffInfo)>,
    st: (BuffUidCounters, Map<i64, Seq<BuffInstanceView>>),
) -> (BuffUidCounters, Map<i64, Seq<BuffInstanceView>>)
    decreases items.len(),
{
    if items.len() == 0 {
        st
    } else {
        let prev = import_fold(cfg, items.drop_last(), st);
        import_one(cfg, prev, items.last().0, items.last().1)
    }
}

proof fn lemma_import_fold_append(
    cfg: BattleConfig,
    a: Seq<(i64, BuffInfo)>,
    b: Seq<(i64, BuffInfo)>,
    st: (BuffUidCounters, Map<i64, Seq<BuffInstanceView>>),
)
    ensures
        import_fold(cfg, a + b, st) == import_fold(cfg, b, import_fold(cfg, a, st)),
    decreases b.len(),
{
    if b.len() == 0 {
        assert(a + b =~= a);
    } else {
        assert((a + b).drop_last() =~= a + b.drop_last());
        lemma_import_fold_append(cfg, a, b.drop_last(), st);
    }
}

impl BuffMgr {
    fn import_list(
        &mut self,
        uids: &mut BuffUidCounters,
        t: i64,
        list: &Vec<BuffInfo>,
        cfg: &BattleConfig,
    )
        ensures
            final(self).wf() == old(self).wf(),
            (*final(uids), final(self)@.active) == import_fold(*cfg, list@.map_values(|b: BuffInfo| (t, b)), (*old(uids), old(self)@.active)),
            final(self)@ == (BuffMgrView { active: final(self)@.active, ..old(self)@ }),
    {
        let ghost items = list@.map_values(|b: BuffInfo| (t, b));
        let mut i: usize = 0;
        while i < list.len()
            invariant
                items == list@.map_values(|b: BuffInfo| (t, b)),
                i <= list@.len(),
                self.wf() == old(self).wf(),
                (*uids, self@.active) == import_fold(*cfg, items.take(i as int), (*old(uids), old(self)@.active)),
                self@ == (BuffMgrView { active: self@.active, ..old(self)@ }),
            decreases list@.len() - i,
        {
            let b = &list[i];
            proof {
                assert(items.take(i as int + 1).drop_last() =~= items.take(i as int));
                assert(items.take(i as int + 1).last() == (t, list@[i as int]));
            }
            let buff_id = i32_or(b.buff_id, 0);
            let buff_uid = i64_or(b.uid, 0);
            if buff_id != 0 && buff_uid != 0 {
                observe_explicit_buff_uid_for_target(uids, t, buff_uid);
                self.add_with_uid(t, buff_id, i64_or(b.from_uid, 0), i32_or(b.count, 0), i32_or(b.layer, 0), buff_uid, cfg);
            }
            i += 1;
        }
        proof { assert(items.take(list@.len() as int) =~= items); }
    }
}

/// Replaces every bucket with the buffs of the snapshot: for each entity
/// with a nonzero uid (attacker fielded, attacker substitutes, defender
/// fielded, defender substitutes), its effective then inactive buffs
/// that have an id and a uid are added with that uid, and the counter of
/// the target's side is kept ahead of it.
pub fn sync_from_fight(fight: &Fight, mgr: &mut BuffMgr, cfg: &BattleConfig, uids: &mut BuffUidCounters)
    ensures
        final(mgr).wf() == old(mgr).wf(),
        (*final(uids), final(mgr)@.active) == import_fold(*cfg, buff_items(all_entities(*fight)), (*old(uids), Map::empty())),
        final(mgr)@ == (BuffMgrView { active: final(mgr)@.active, ..old(mgr)@ }),
{
    mgr.active.clear();
    proof { assert(mgr@.active =~= Map::empty()); }
    let es = collect_all_entities(fight);
    let ghost s = all_entities(*fight);
    let ghost u0 = *uids;
    let mut i: usize = 0;
    while i < es.len()
        invariant
            es@.len() == s.len(),
            forall|j: int| 0 <= j < es@.len() ==> *es@[j] == s[j],
            i <= es@.len(),
            mgr.wf() == old(mgr).wf(),
            (*uids, mgr@.active) == import_fold(*cfg, buff_items(s.take(i as int)), (u0, Map::empty())),
            mgr@ == (BuffMgrView { active: mgr@.active, ..old(mgr)@ }),
        decreases es@.len() - i,
    {
        let e = es[i];
        proof {
            assert(s.take(i as int + 1).drop_last() =~= s.take(i as int));
            assert(s.take(i as int + 1).last() == s[i as int]);
        }
        let t = i64_or(e.uid, 0);
        if t != 0 {
            let ghost st0 = (*uids, mgr@.active);
            mgr.import_list(uids, t, &e.buffs, cfg);
            mgr.import_list(uids, t, &e.no_effect_buffs, cfg);
            proof {
                let a = e.buffs@.map_values(|b: BuffInfo| (t, b));
                let b2 = e.no_effect_buffs@.map_values(|b: BuffInfo| (t, b));
                assert(entity_buff_items(s[i as int]) =~= a + b2);
                lemma_import_fold_append(*cfg, a, b2, st0);
                lemma_import_fold_append(*cfg, buff_items(s.take(i as int)), a + b2, (u0, Map::empty()));
            }
        } else {
            proof {
                assert(entity_buff_items(s[i as int]) =~= Seq::<(i64, BuffInfo)>::empty());
                assert(buff_items(s.take(i as int)) + Seq::<(i64, BuffInfo)>::empty() =~= buff_items(s.take(i as int)));
            }
        }
        i += 1;
    }
    proof { assert(s.take(s.len() as int) =~= s); }
}

/// A bucket after folding runtime instances `rs` into it: each replaces
/// the first instance with its uid, or is appended.
pub open spec fn merge_runtime(e: Seq<BuffInstanceView>, rs: Seq<BuffInstanceView>) -> Seq<BuffInstanceView>
    decreases rs.len(),
{
    if rs.len() == 0 {
        e
    } else {
        let prev = merge_runtime(e, rs.drop_last());
        match first_of_uid(prev, rs.last().uid) {
            Some(i) => prev.update(i, rs.last()),
            None => prev.push(rs.last()),
        }
    }
}

/// The buckets of `imported` with the runtime buckets `runtime` folded in.
pub open spec fn merged_active(
    imported: Map<i64, Seq<BuffInstanceView>>,
    runtime: Map<i64, Seq<BuffInstanceView>>,
) -> Map<i64, Seq<BuffInstanceView>> {
    Map::new(
        |k: i64| imported.contains_key(k) || runtime.contains_key(k),
        |k: i64| if runtime.contains_key(k) { merge_runtime(bucket(imported, k), runtime[k]) } else { imported[k] },
    )
}

/// Like `sync_from_fight`, but afterwards every instance that was live
/// before replaces the imported instance with its uid on its target, or
/// is appended there.
pub fn sync_from_fight_preserve_runtime(fight: &Fight, mgr: &mut BuffMgr, cfg: &BattleConfig, uids: &mut BuffUidCounters)
    ensures
        final(mgr).wf() == old(mgr).wf(),
        ({
            let imported = import_fold(*cfg, buff_items(all_entities(*fight)), (*old(uids), Map::empty()));
            &&& *final(uids) == imported.0
            &&& final(mgr)@ == BuffMgrView { active: merged_active(imported.1, old(mgr)@.active), ..old(mgr)@ }
        }),
{
    let ghost runtime_view = old(mgr)@.active;
    let ks = mgr.active_keys();
    let mut runtime: Vec<(i64, Vec<BuffInstance>)> = Vec::new();
    let mut i: usize = 0;
    while i < ks.len()
        invariant
            is_key_order(ks@, runtime_view),
            i <= ks@.len(),
            runtime@.len() == i,
            forall|j: int| 0 <= j < i ==> #[trigger] runtime@[j].0 == ks@[j] && views(runtime@[j].1@) == runtime_view[ks@[j]],
            mgr.wf() == old(mgr).wf(),
            mgr@ == (BuffMgrView { active: mgr@.active, ..old(mgr)@ }),
            forall|k: i64| #[trigger] mgr@.active.contains_key(k) ==> runtime_view.contains_key(k),
            forall|k: i64| runtime_view.contains_key(k) && !ks@.take(i as int).contains(k) ==> #[trigger] mgr@.active.contains_key(k) && mgr@.active[k] == runtime_view[k],
        decreases ks@.len() - i,
    {
        let k = ks[i];
        proof {
            assert(ks@.to_set().contains(k));
            assert(!ks@.take(i as int).contains(k)) by {
                if ks@.take(i as int).contains(k) {
                    let j = choose|j: int| 0 <= j < i && ks@.take(i as int)[j] == k;
                    assert(ks@[j] == ks@[i as int]);
                }
            }
        }
        match mgr.take_bucket(k) {
            Some(v) => {
                runtime.push((k, v));
            },
            None => {
                proof { assert(false); }
            },
        }
        proof {
            assert forall|k2: i64| runtime_view.contains_key(k2) && !ks@.take(i as int + 1).contains(k2) implies #[trigger] mgr@.active.contains_key(k2) && mgr@.active[k2] == runtime_view[k2] by {
                assert(ks@.take(i as int + 1)[i as int] == k);
                if ks@.take(i as int).contains(k2) {
                    let j = choose|j: int| 0 <= j < i && ks@.take(i as int)[j] == k2;
                    assert(ks@.take(i as int + 1)[j] == k2);
                }
            }
        }
        i += 1;
    }
    sync_from_fight(fight, mgr, cfg, uids);
    let ghost imported = mgr@.active;
    let mut r: usize = 0;
    while r < runtime.len()
        invariant
            is_key_order(ks@, runtime_view),
            runtime@.len() == ks@.len(),
            forall|j: int| 0 <= j < ks@.len() ==> #[trigger] runtime@[j].0 == ks@[j] && views(runtime@[j].1@) == runtime_view[ks@[j]],
            r <= runtime@.len(),
            mgr.wf() == old(mgr).wf(),
            mgr@.step_deleted == old(mgr)@.step_deleted,
            mgr@.teammate_injury == old(mgr)@.teammate_injury,
            mgr@.slot_usage == old(mgr)@.slot_usage,
            mgr@.active == Map::new(
                |k: i64| imported.contains_key(k) || ks@.take(r as int).contains(k),
                |k: i64| if ks@.take(r as int).contains(k) { merge_runtime(bucket(imported, k), runtime_view[k]) } else { imported[k] },
            ),
        decreases runtime@.len() - r,
    {
        let k = runtime[r].0;
        proof {
            assert(runtime@[r as int].0 == ks@[r as int]);
            assert(!ks@.take(r as int).contains(k)) by {
                if ks@.take(r as int).contains(k) {
                    let j = choose|j: int| 0 <= j < r && ks@.take(r as int)[j] == k;
                    assert(ks@[j] == ks@[r as int]);
                }
            }
        }
        let ghost before = mgr@.active;
        let mut entry = match mgr.take_bucket(k) {
            Some(v) => v,
            None => {
                let v: Vec<BuffInstance> = Vec::new();
                proof { assert(views(v@) =~= Seq::<BuffInstanceView>::empty()); }
                v
            },
        };
        let ghost e0 = views(entry@);
        proof { assert(e0 == bucket(imported, k)); }
        let rb = &runtime[r].1;
        let ghost rs = views(rb@);
        let mut j: usize = 0;
        while j < rb.len()
            invariant
                rs == views(rb@),
                j <= rb@.len(),
                views(entry@) == merge_runtime(e0, rs.take(j as int)),
            decreases rb@.len() - j,
        {
            let b = rb[j].clone();
            proof {
                assert(rs.take(j as int + 1).drop_last() =~= rs.take(j as int));
                assert(rs.take(j as int + 1).last() == b@);
            }
            match first_with_uid(&entry, b.uid) {
                Some(p) => {
                    let ghost ev = views(entry@);
                    entry.set(p, b);
                    proof { assert(views(entry@) =~= ev.update(p as int, rs[j as int])); }
                },
                None => {
                    let ghost ev = views(entry@);
                    entry.push(b);
                    proof { assert(views(entry@) =~= ev.push(rs[j as int])); }
                },
            }
            j += 1;
        }
        proof { assert(rs.take(rb@.len() as int) =~= rs); }
        mgr.put_bucket(k, entry);
        proof {
            assert(ks@.take(r as int + 1) =~= ks@.take(r as int).push(k));
            assert forall|k2: i64| ks@.take(r as int + 1).contains(k2) == (ks@.take(r as int).contains(k2) || k2 == k) by {
                if k2 == k {
                    assert(ks@.take(r as int + 1)[r as int] == k);
                }
                if ks@.take(r as int).contains(k2) {
                    let jj = choose|jj: int| 0 <= jj < r && ks@.take(r as int)[jj] == k2;
                    assert(ks@.take(r as int + 1)[jj] == k2);
                }
            }
            assert(mgr@.active =~= Map::new(
                |k2: i64| imported.contains_key(k2) || ks@.take(r as int + 1).contains(k2),
                |k2: i64| if ks@.take(r as int + 1).contains(k2) { merge_runtime(bucket(imported, k2), runtime_view[k2]) } else { imported[k2] },
            ));
        }
        r += 1;
    }
    proof {
        assert(ks@.take(ks@.len() as int) =~= ks@);
        assert forall|k: i64| ks@.contains(k) == runtime_view.contains_key(k) by {
            assert(ks@.to_set().contains(k) == runtime_view.dom().contains(k));
        }
        assert(mgr@.active =~= merged_active(imported, runtime_view));
    }
}

} // verus!

verus! {

/// After `add` (or `add_with_uid`, which adds the same way when no
/// instance has the given uid) the target carries an instance of the
/// added buff.
pub proof fn law_added_buff_is_present(s: Seq<BuffInstanceView>, inst: BuffInstanceView, stacked: bool)
    ensures
        exists|i: int|
            0 <= i < bucket_after_add(s, inst, stacked).len() && #[trigger] bucket_after_add(s, inst, stacked)[i].buff_id
                == inst.buff_id,
        bucket_after_add(s, inst, stacked).len() >= s.len(),
{
    let t = bucket_after_add(s, inst, stacked);
    if stacked {
        assert(t[s.len() as int].buff_id == inst.buff_id);
    } else {
        lemma_first_index(s, |b: BuffInstanceView| b.buff_id == inst.buff_id);
        match first_of_buff(s, inst.buff_id) {
            Some(i) => {
                assert(t[i].buff_id == inst.buff_id);
            },
            None => {
                assert(t[s.len() as int].buff_id == inst.buff_id);
            },
        }
    }
}

/// After `remove_by_uid` no instance of the bucket has the removed uid,
/// and every other instance stays.
pub proof fn law_removed_uid_is_gone(s: Seq<BuffInstanceView>, buff_uid: i64)
    ensures
        forall|i: int| 0 <= i < without_uid(s, buff_uid).len() ==> #[trigger] without_uid(s, buff_uid)[i].uid != buff_uid,
        forall|i: int| 0 <= i < s.len() && s[i].uid != buff_uid ==> without_uid(s, buff_uid).contains(#[trigger] s[i]),
{
    let p = |b: BuffInstanceView| b.uid != buff_uid;
    s.filter_lemma(p);
    assert forall|i: int| 0 <= i < s.len() && s[i].uid != buff_uid implies without_uid(s, buff_uid).contains(
        #[trigger] s[i],
    ) by {
        s.lemma_filter_contains(p, i);
    }
}

/// A round end never drops an untimed buff, and only ever lowers a
/// positive duration by one.
pub proof fn law_round_end_keeps_untimed(cfg: BattleConfig, s: Seq<BuffInstanceView>)
    ensures
        forall|i: int|
            0 <= i < s.len() && !cfg_is_timed(cfg, s[i].buff_id) ==> bucket_at_round_end(cfg, s).contains(
                #[trigger] ticked(s[i]),
            ),
        forall|i: int|
            0 <= i < bucket_at_round_end(cfg, s).len() ==> s.map_values(|b: BuffInstanceView| ticked(b)).contains(
                #[trigger] bucket_at_round_end(cfg, s)[i],
            ),
{
    let t = s.map_values(|b: BuffInstanceView| ticked(b));
    let p = |b: BuffInstanceView| survives(cfg, b);
    t.filter_lemma(p);
    assert forall|i: int| 0 <= i < s.len() && !cfg_is_timed(cfg, s[i].buff_id) implies bucket_at_round_end(
        cfg,
        s,
    ).contains(#[trigger] ticked(s[i])) by {
        assert(t[i] == ticked(s[i]));
        assert(ticked(s[i]).buff_id == s[i].buff_id);
        t.lemma_filter_contains(p, i);
    }
    assert forall|i: int| 0 <= i < bucket_at_round_end(cfg, s).len() implies t.contains(
        #[trigger] bucket_at_round_end(cfg, s)[i],
    ) by {
        let f = t.filter(p);
        assert(f == bucket_at_round_end(cfg, s));
        assert(f.contains(f[i]));
        t.lemma_filter_contains_rev(p, f[i]);
    }
}

/// The instances of target `u` among the (target, instance) pairs `s`,
/// in order.
pub open spec fn of_target(s: Seq<(i64, BuffInstanceView)>, u: i64) -> Seq<BuffInstanceView>
    decreases s.len(),
{
    if s.len() == 0 {
        Seq::empty()
    } else if s.last().0 == u {
        of_target(s.drop_last(), u).push(s.last().1)
    } else {
        of_target(s.drop_last(), u)
    }
}

/// The number of instances on the targets `ks`.
pub open spec fn total_instances(ks: Seq<i64>, m: Map<i64, Seq<BuffInstanceView>>) -> int
    decreases ks.len(),
{
    if ks.len() == 0 { 0 } else { total_instances(ks.drop_last(), m) + bucket(m, ks.last()).len() }
}

proof fn lemma_of_target_add(a: Seq<(i64, BuffInstanceView)>, b: Seq<(i64, BuffInstanceView)>, u: i64)
    ensures
        of_target(a + b, u) == of_target(a, u) + of_target(b, u),
    decreases b.len(),
{
    if b.len() == 0 {
        assert(a + b =~= a);
        assert(of_target(a, u) + of_target(b, u) =~= of_target(a, u));
    } else {
        assert((a + b).drop_last() =~= a + b.drop_last());
        assert((a + b).last() == b.last());
        lemma_of_target_add(a, b.drop_last(), u);
        if b.last().0 == u {
            assert(of_target(a, u) + of_target(b.drop_last(), u).push(b.last().1) =~= (of_target(a, u) + of_target(
                b.drop_last(),
                u,
            )).push(b.last().1));
        }
    }
}

proof fn lemma_of_target_bucket(t: Seq<BuffInstanceView>, k: i64, u: i64)
    ensures
        of_target(t.map_values(|b: BuffInstanceView| (k, b)), u) == (if k == u { t } else { Seq::empty() }),
    decreases t.len(),
{
    let s = t.map_values(|b: BuffInstanceView| (k, b));
    if t.len() == 0 {
        assert(s.len() == 0);
    } else {
        assert(s.drop_last() =~= t.drop_last().map_values(|b: BuffInstanceView| (k, b)));
        assert(s.last() == (k, t.last()));
        lemma_of_target_bucket(t.drop_last(), k, u);
        if k == u {
            assert(t.drop_last().push(t.last()) =~= t);
        }
    }
}

proof fn lemma_of_target_contains(s: Seq<(i64, BuffInstanceView)>, u: i64, b: BuffInstanceView)
    ensures
        s.contains((u, b)) == of_target(s, u).contains(b),
    decreases s.len(),
{
    if s.len() > 0 {
        lemma_of_target_contains(s.drop_last(), u, b);
        let r = of_target(s.drop_last(), u);
        if s.contains((u, b)) {
            let i = choose|i: int| 0 <= i < s.len() && s[i] == (u, b);
            if i < s.len() - 1 {
                assert(s.drop_last()[i] == (u, b));
                let j = choose|j: int| 0 <= j < r.len() && r[j] == b;
                if s.last().0 == u {
                    assert(r.push(s.last().1)[j] == b);
                }
            } else {
                assert(of_target(s, u) == r.push(b));
                assert(r.push(b)[r.len() as int] == b);
            }
        }
        if of_target(s, u).contains(b) {
            let j = choose|j: int| 0 <= j < of_target(s, u).len() && of_target(s, u)[j] == b;
            if s.last().0 == u && j == r.len() {
                assert(s[s.len() - 1] == (u, b));
            } else {
                assert(r[j] == b);
                assert(r.contains(b));
                let i = choose|i: int| 0 <= i < s.drop_last().len() && s.drop_last()[i] == (u, b);
                assert(s[i] == (u, b));
            }
        }
    }
}

proof fn lemma_flatten_of_target(ks: Seq<i64>, m: Map<i64, Seq<BuffInstanceView>>, u: i64)
    requires
        ks.no_duplicates(),
    ensures
        of_target(flatten_buckets(ks, m), u) == (if ks.contains(u) { bucket(m, u) } else { Seq::empty() }),
        flatten_buckets(ks, m).len() == total_instances(ks, m),
    decreases ks.len(),
{
    if ks.len() > 0 {
        let k = ks.last();
        let rest = ks.drop_last();
        assert(rest.no_duplicates());
        lemma_flatten_of_target(rest, m, u);
        lemma_of_target_add(flatten_buckets(rest, m), bucket(m, k).map_values(|b: BuffInstanceView| (k, b)), u);
        lemma_of_target_bucket(bucket(m, k), k, u);
        assert(ks.contains(u) == (rest.contains(u) || k == u)) by {
            if ks.contains(u) {
                let i = choose|i: int| 0 <= i < ks.len() && ks[i] == u;
                if i < ks.len() - 1 {
                    assert(rest[i] == u);
                }
            }
            if rest.contains(u) {
                let i = choose|i: int| 0 <= i < rest.len() && rest[i] == u;
                assert(ks[i] == u);
            }
            if k == u {
                assert(ks[ks.len() - 1] == u);
            }
        }
        if k == u {
            assert(!rest.contains(u)) by {
                if rest.contains(u) {
                    let i = choose|i: int| 0 <= i < rest.len() && rest[i] == u;
                    assert(ks[i] == ks[ks.len() - 1]);
                }
            }
            assert(Seq::<BuffInstanceView>::empty() + bucket(m, u) =~= bucket(m, u));
        } else if rest.contains(u) {
            assert(bucket(m, u) + Seq::<BuffInstanceView>::empty() =~= bucket(m, u));
        } else {
            assert(Seq::<BuffInstanceView>::empty() + Seq::<BuffInstanceView>::empty() =~= Seq::<BuffInstanceView>::empty());
        }
    }
}

/// What `all_instances` returns is the buckets flattened: the instances of
/// each target in that target's order, a pair `(u, b)` exactly when `b`
/// is on `u`, and as many pairs as instances.
pub proof fn law_all_instances_are_the_buckets(ks: Seq<i64>, m: Map<i64, Seq<BuffInstanceView>>)
    requires
        is_key_order(ks, m),
    ensures
        forall|u: i64| #[trigger] of_target(flatten_buckets(ks, m), u) == bucket(m, u),
        forall|u: i64, b: BuffInstanceView| #[trigger] flatten_buckets(ks, m).contains((u, b)) == bucket(m, u).contains(b),
        flatten_buckets(ks, m).len() == total_instances(ks, m),
{
    lemma_flatten_of_target(ks, m, 0);
    assert forall|u: i64| #[trigger] of_target(flatten_buckets(ks, m), u) == bucket(m, u) by {
        lemma_flatten_of_target(ks, m, u);
        assert(ks.to_set().contains(u) == ks.contains(u));
        if !ks.contains(u) {
            assert(!m.contains_key(u));
        }
    }
    assert forall|u: i64, b: BuffInstanceView| #[trigger] flatten_buckets(ks, m).contains((u, b)) == bucket(m, u).contains(
        b,
    ) by {
        lemma_of_target_contains(flatten_buckets(ks, m), u, b);
        lemma_flatten_of_target(ks, m, u);
        assert(ks.to_set().contains(u) == ks.contains(u));
        if !ks.contains(u) {
            assert(!m.contains_key(u));
        }
    }
}

proof fn lemma_deleted_of_add(a: Seq<BuffInstanceView>, b: Seq<BuffInstanceView>)
    ensures
        deleted_of(a + b) == deleted_of(a) + deleted_of(b),
    decreases b.len(),
{
    if b.len() == 0 {
        assert(a + b =~= a);
        assert(deleted_of(a) + deleted_of(b) =~= deleted_of(a));
    } else {
        assert((a + b).drop_last() =~= a + b.drop_last());
        assert((a + b).last() == b.last());
        lemma_deleted_of_add(a, b.drop_last());
        assert(deleted_of(a) + (deleted_of(b.drop_last()) + deleted_ids(b.last())) =~= deleted_of(a) + deleted_of(
            b.drop_last(),
        ) + deleted_ids(b.last()));
    }
}

/// Over a run of removals since the record was cleared (`clear`,
/// `remove_by_uid` and `consume_one_stacked_drop_dmg` each append the ids
/// of what they removed), the record lists the ids of every removed
/// instance in removal order: its buff id, then its type id when that
/// differs, zeros left out.
pub proof fn law_deleted_ids_in_removal_order(states: Seq<BuffMgrView>, removed: Seq<Seq<BuffInstanceView>>)
    requires
        states.len() == removed.len() + 1,
        states[0].step_deleted == Seq::<i32>::empty(),
        forall|k: int|
            0 <= k < removed.len() ==> #[trigger] states[k + 1].step_deleted == states[k].step_deleted + deleted_of(
                removed[k],
            ),
    ensures
        states.last().step_deleted == deleted_of(removed.flatten()),
    decreases removed.len(),
{
    if removed.len() == 0 {
        assert(removed.flatten() =~= Seq::<BuffInstanceView>::empty());
    } else {
        let n = removed.len() - 1;
        let s2 = states.drop_last();
        let r2 = removed.drop_last();
        assert forall|k: int| 0 <= k < r2.len() implies #[trigger] s2[k + 1].step_deleted == s2[k].step_deleted
            + deleted_of(r2[k]) by {
            assert(states[k + 1].step_deleted == states[k].step_deleted + deleted_of(removed[k]));
        }
        law_deleted_ids_in_removal_order(s2, r2);
        assert(states[n + 1].step_deleted == states[n].step_deleted + deleted_of(removed[n]));
        r2.lemma_flatten_push(removed[n]);
        assert(r2.push(removed[n]) =~= removed);
        lemma_deleted_of_add(r2.flatten(), removed[n]);
    }
}

/// The manager after `n` round ends.
pub open spec fn after_round_ends(cfg: BattleConfig, v: BuffMgrView, n: nat) -> BuffMgrView
    decreases n,
{
    if n == 0 {
        v
    } else {
        let w = after_round_ends(cfg, v, (n - 1) as nat);
        BuffMgrView { active: active_at_round_end(cfg, w.active), ..w }
    }
}

/// The cumulative teammate injury survives any number of round ends; only
/// a battle end resets it.
pub proof fn law_round_ends_keep_teammate_injury(cfg: BattleConfig, v: BuffMgrView, n: nat)
    ensures
        after_round_ends(cfg, v, n).teammate_injury == v.teammate_injury,
    decreases n,
{
    if n > 0 {
        law_round_ends_keep_teammate_injury(cfg, v, (n - 1) as nat);
    }
}

/// Consuming a stacked drop-damage buff takes one layer, or with no layer
/// one count: with layers above one the buff keeps all but one layer; with
/// one layer it goes; with no layer and counts above one it keeps all but
/// one count; otherwise it goes. What stays is returned and stored in the
/// same place with every other field unchanged.
pub proof fn law_consume_takes_exactly_one(
    cfg: BattleConfig,
    old: BuffMgrView,
    target_uid: i64,
    i: int,
    res: StackConsumeResult,
    new: BuffMgrView,
)
    requires
        consume_outcome(cfg, old, target_uid, i, res, new),
    ensures
        ({
            let b = bucket(old.active, target_uid)[i];
            let (kept, r) = result_view(res);
            let same_but_counts = r.uid == b.uid && r.buff_id == b.buff_id && r.type_id == b.type_id && r.from_uid
                == b.from_uid && r.duration == b.duration && r.params == b.params;
            &&& (b.layer > 1 ==> kept && same_but_counts && r.layer == b.layer - 1 && r.stacks == b.stacks
                && bucket(new.active, target_uid).len() == bucket(old.active, target_uid).len() && bucket(
                new.active,
                target_uid,
            )[i] == r)
            &&& (b.layer <= 0 && b.stacks > 1 ==> kept && same_but_counts && r.layer == b.layer && r.stacks == b.stacks
                - 1 && bucket(new.active, target_uid).len() == bucket(old.active, target_uid).len() && bucket(
                new.active,
                target_uid,
            )[i] == r)
            &&& ((b.layer == 1 || (b.layer <= 0 && b.stacks <= 1)) ==> !kept && r == b && bucket(
                new.active,
                target_uid,
            ).len() == bucket(old.active, target_uid).len() - 1)
        }),
{
    let s = bucket(old.active, target_uid);
    let after = bucket_after_consume(s, i);
    assert(old.active.contains_key(target_uid));
    if after.len() == 0 {
        assert(bucket(new.active, target_uid) =~= after);
    } else {
        assert(bucket(new.active, target_uid) == after);
    }
}

} // verus!
