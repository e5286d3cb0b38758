//! Buff instance uid allocation.
//!
//! Two side-local counters hand out buff uids: one for targets on the
//! attacker side (uids `>= 0`) and one for targets on the defender side
//! (uids `< 0`), which starts at `DEFENDER_BUFF_UID_START`. A lane flag
//! chooses which counter untargeted allocations draw from. Counters wrap
//! on overflow, like the atomic counters they model.
use vstd::prelude::*;

verus! {

/// First value of the defender-side counter after a reset.
pub const DEFENDER_BUFF_UID_START: i64 = 100000;

/// The state behind buff uid allocation.
#[derive(Debug, Clone)]
pub struct BuffUidCounters {
    pub attacker: i64,
    pub defender: i64,
    pub defender_lane: bool,
}

impl BuffUidCounters {
    /// The counter that untargeted allocations use.
    pub open spec fn lane_value(&self) -> i64 {
        if self.defender_lane { self.defender } else { self.attacker }
    }

    /// Counters right after `reset_buff_uid`.
    pub open spec fn initial() -> Self {
        BuffUidCounters { attacker: 0, defender: DEFENDER_BUFF_UID_START, defender_lane: false }
    }

    /// Fresh counters, equal to those after `reset_buff_uid`.
    pub fn new() -> (r: Self)
        ensures
            r == Self::initial(),
    {
        BuffUidCounters { attacker: 0, defender: DEFENDER_BUFF_UID_START, defender_lane: false }
    }
}

/// Counters after the active lane advanced by `step`.
pub open spec fn spec_advance_lane(c: BuffUidCounters, step: i64) -> BuffUidCounters {
    if c.defender_lane {
        BuffUidCounters { defender: c.defender.wrapping_add(step), ..c }
    } else {
        BuffUidCounters { attacker: c.attacker.wrapping_add(step), ..c }
    }
}

/// Counters after the side of `target_uid` advanced by `step`.
pub open spec fn spec_advance_side(c: BuffUidCounters, target_uid: i64, step: i64) -> BuffUidCounters {
    if target_uid < 0 {
        BuffUidCounters { defender: c.defender.wrapping_add(step), ..c }
    } else {
        BuffUidCounters { attacker: c.attacker.wrapping_add(step), ..c }
    }
}

/// The counter on the side of `target_uid`.
pub open spec fn side_value(c: BuffUidCounters, target_uid: i64) -> i64 {
    if target_uid < 0 { c.defender } else { c.attacker }
}

/// Counters after an explicit uid was observed for `target_uid`.
pub open spec fn spec_observe(c: BuffUidCounters, target_uid: i64, buff_uid: i64) -> BuffUidCounters {
    if buff_uid <= 0 {
        c
    } else if target_uid < 0 {
        BuffUidCounters { defender: if c.defender < buff_uid { buff_uid } else { c.defender }, ..c }
    } else {
        BuffUidCounters { attacker: if c.attacker < buff_uid { buff_uid } else { c.attacker }, ..c }
    }
}

/// Counters after `reset_buff_uid_to(value)`.
pub open spec fn spec_reset_to(c: BuffUidCounters, value: i64) -> BuffUidCounters {
    if value >= DEFENDER_BUFF_UID_START {
        BuffUidCounters { defender: value, defender_lane: true, ..c }
    } else {
        BuffUidCounters { attacker: value, defender_lane: false, ..c }
    }
}

/// Allocates the next uid on the active lane: two above the lane's counter.
pub fn next_buff_uid(c: &mut BuffUidCounters) -> (r: i64)
    ensures
        *final(c) == spec_advance_lane(*old(c), 2),
        r == final(c).lane_value(),
{
    if c.defender_lane {
        c.defender = c.defender.wrapping_add(2);
        c.defender
    } else {
        c.attacker = c.attacker.wrapping_add(2);
        c.attacker
    }
}

/// Allocates the next uid on the side of `target_uid`: two above that
/// side's counter.
pub fn next_buff_uid_for_target(c: &mut BuffUidCounters, target_uid: i64) -> (r: i64)
    ensures
        *final(c) == spec_advance_side(*old(c), target_uid, 2),
        r == side_value(*final(c), target_uid),
{
    if target_uid < 0 {
        c.defender = c.defender.wrapping_add(2);
        c.defender
    } else {
        c.attacker = c.attacker.wrapping_add(2);
        c.attacker
    }
}

/// Allocates a slave uid on the side of `target_uid`: one above that
/// side's counter.
pub fn next_slave_buff_uid_for_target(c: &mut BuffUidCounters, target_uid: i64) -> (r: i64)
    ensures
        *final(c) == spec_advance_side(*old(c), target_uid, 1),
        r == side_value(*final(c), target_uid),
{
    if target_uid < 0 {
        c.defender = c.defender.wrapping_add(1);
        c.defender
    } else {
        c.attacker = c.attacker.wrapping_add(1);
        c.attacker
    }
}

/// Keeps the side counter of `target_uid` at least `buff_uid`, so that
/// later allocations on that side do not reuse an explicit uid. Uids
/// `<= 0` are ignored.
pub fn observe_explicit_buff_uid_for_target(c: &mut BuffUidCounters, target_uid: i64, buff_uid: i64)
    ensures
        *final(c) == spec_observe(*old(c), target_uid, buff_uid),
{
    if buff_uid <= 0 {
        return;
    }
    if target_uid < 0 {
        if c.defender < buff_uid {
            c.defender = buff_uid;
        }
    } else {
        if c.attacker < buff_uid {
            c.attacker = buff_uid;
        }
    }
}

/// Restores both counters and the lane to their initial values.
pub fn reset_buff_uid(c: &mut BuffUidCounters)
    ensures
        *final(c) == BuffUidCounters::initial(),
{
    c.attacker = 0;
    c.defender = DEFENDER_BUFF_UID_START;
    c.defender_lane = false;
}

/// Moves one counter to `value`: the defender counter (and lane) when
/// `value >= DEFENDER_BUFF_UID_START`, the attacker counter (and lane)
/// otherwise.
pub fn reset_buff_uid_to(c: &mut BuffUidCounters, value: i64)
    ensures
        *final(c) == spec_reset_to(*old(c), value),
{
    if value >= DEFENDER_BUFF_UID_START {
        c.defender = value;
        c.defender_lane = true;
    } else {
        c.attacker = value;
        c.defender_lane = false;
    }
}

/// The counter of the active lane.
pub fn current_buff_uid(c: &BuffUidCounters) -> (r: i64)
    ensures
        r == c.lane_value(),
{
    if c.defender_lane { c.defender } else { c.attacker }
}

/// The attacker-side counter.
pub fn attacker_buff_uid_checkpoint(c: &BuffUidCounters) -> (r: i64)
    ensures
        r == c.attacker,
{
    c.attacker
}

/// The defender-side counter.
pub fn defender_buff_uid_checkpoint(c: &BuffUidCounters) -> (r: i64)
    ensures
        r == c.defender,
{
    c.defender
}

/// Law: a checkpoint taken with `current_buff_uid` is given back by
/// `current_buff_uid` after `reset_buff_uid_to` with that checkpoint,
/// whatever happened to the counters in between.
pub proof fn law_reset_to_restores_current(c: BuffUidCounters, value: i64)
    ensures
        spec_reset_to(c, value).lane_value() == value,
{
}

/// Law: allocating for a target on one side never moves the counter of
/// the other side.
pub proof fn law_sides_are_independent(c: BuffUidCounters, target_uid: i64, other_uid: i64, step: i64)
    requires
        (target_uid < 0) != (other_uid < 0),
    ensures
        side_value(spec_advance_side(c, target_uid, step), other_uid) == side_value(c, other_uid),
        spec_advance_side(c, target_uid, step).defender_lane == c.defender_lane,
{
}

/// Law: once an explicit uid was observed for a side, the next uid
/// allocated there (normal or slave) is strictly greater than it, as
/// long as the counter does not wrap.
pub proof fn law_observed_uid_is_not_reused(c: BuffUidCounters, target_uid: i64, buff_uid: i64, step: i64)
    requires
        buff_uid > 0,
        step == 1 || step == 2,
        side_value(spec_observe(c, target_uid, buff_uid), target_uid) + step <= i64::MAX,
    ensures
        side_value(
            spec_advance_side(spec_observe(c, target_uid, buff_uid), target_uid, step),
            target_uid,
        ) > buff_uid,
{
}

/// Law: without wrapping, successive uids on the active lane strictly
/// increase, two at a time.
pub proof fn law_lane_allocations_increase(c: BuffUidCounters)
    requires
        c.lane_value() + 2 <= i64::MAX,
    ensures
        spec_advance_lane(c, 2).lane_value() == c.lane_value() + 2,
        spec_advance_lane(c, 2).defender_lane == c.defender_lane,
{
}

} // verus!
