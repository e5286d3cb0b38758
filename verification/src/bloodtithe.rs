//! Bloodtithe: a per-team blood pool that fills one point for every
//! `DAMAGE_PER_POINT` hp the team loses, up to a cap that grows with the
//! number of allies that enable it.
use std::collections::HashMap;
use vstd::prelude::*;
use crate::table::{div_trunc, get_or_i32, lemma_tdiv_mul_back, max_i32, min_i32, read_or_i32, tdiv, tdiv_any};

verus! {

/// Hp lost per bloodtithe point.
pub const DAMAGE_PER_POINT: i32 = 3000;

/// The pool cap of a team with no enabling ally.
pub const BASE_MAX: i32 = 24;

/// Cap added by each enabling ally.
pub const PER_ALLY_BONUS: i32 = 16;

/// The tables of a `BloodtitheState`, keyed by team type.
pub ghost struct BloodtitheView {
    pub value: Map<i32, i32>,
    pub max: Map<i32, i32>,
    pub accumulator: Map<i32, i32>,
    pub initialized: bool,
    pub moxie_tracker: Map<i32, i32>,
    /// The last gain recorded by `set_gain`.
    pub gain: i32,
}

/// Blood pool values, caps and hp-loss accumulators per team.
#[derive(Debug)]
pub struct BloodtitheState {
    value: HashMap<i32, i32>,
    max: HashMap<i32, i32>,
    accumulator: HashMap<i32, i32>,
    pub initialized: bool,
    pub moxie_threshold_tracker: HashMap<i32, i32>,
    gain: i32,
}

impl View for BloodtitheState {
    type V = BloodtitheView;

    closed spec fn view(&self) -> BloodtitheView {
        BloodtitheView {
            value: self.value@,
            max: self.max@,
            accumulator: self.accumulator@,
            initialized: self.initialized,
            moxie_tracker: self.moxie_threshold_tracker@,
            gain: self.gain,
        }
    }
}

/// The pool value of `team`, `0` when unset.
pub open spec fn value_of(v: BloodtitheView, team: i32) -> i32 {
    get_or_i32(v.value, team, 0)
}

/// The pool cap of `team`, `BASE_MAX` when unset.
pub open spec fn max_of_team(v: BloodtitheView, team: i32) -> i32 {
    get_or_i32(v.max, team, BASE_MAX)
}

/// No team's pool value exceeds its cap (an unset value counts as zero).
pub open spec fn within_caps(v: BloodtitheView) -> bool {
    forall|t: i32| #[trigger] value_of(v, t) <= max_of_team(v, t)
}

proof fn lemma_caps_kept(v: BloodtitheView, w: BloodtitheView, team: i32)
    requires
        within_caps(v),
        value_of(w, team) <= max_of_team(w, team),
        w.value == v.value || exists|x: i32| w.value == v.value.insert(team, x),
        w.max == v.max || exists|x: i32| w.max == v.max.insert(team, x),
    ensures
        within_caps(w),
{
    assert forall|t: i32| #[trigger] value_of(w, t) <= max_of_team(w, t) by {
        if t != team {
            assert(value_of(v, t) <= max_of_team(v, t));
            assert(value_of(w, t) == value_of(v, t));
            assert(max_of_team(w, t) == max_of_team(v, t));
        }
    }
}

/// The pool after setting the cap of `team` to `m`: the value, created at
/// zero when unset, is lowered to the cap.
pub open spec fn with_cap(v: BloodtitheView, team: i32, m: i32) -> BloodtitheView {
    BloodtitheView {
        max: v.max.insert(team, m),
        value: v.value.insert(team, min_i32(value_of(v, team), m)),
        ..v
    }
}

/// The cap of a team with `enablers` enabling allies.
pub open spec fn cap_for(enablers: i32) -> int {
    BASE_MAX + enablers * PER_ALLY_BONUS
}

/// Points earned from an accumulator of `acc` hp by a pool at `value` of
/// `max`: one per full `DAMAGE_PER_POINT`, never past the cap.
pub open spec fn points_gained(acc: int, value: int, max: int) -> int {
    if acc >= 0 && value < max {
        let by_damage = acc / (DAMAGE_PER_POINT as int);
        if by_damage < max - value { by_damage } else { max - value }
    } else {
        0
    }
}

/// Thresholds of `total` passed since the tracker last caught up.
pub open spec fn moxie_due(v: BloodtitheView, team: i32, threshold: i32) -> int {
    tdiv_any(value_of(v, team) as int, threshold as int) - tdiv_any(
        get_or_i32(v.moxie_tracker, team, 0) as int,
        threshold as int,
    )
}

/// The tracker after `consume_moxie_thresholds`: moved up to the last
/// passed threshold when one was passed, created at zero when unset.
pub open spec fn tracker_after_consume(v: BloodtitheView, team: i32, threshold: i32) -> Map<i32, i32> {
    if moxie_due(v, team, threshold) > 0 {
        v.moxie_tracker.insert(team, (tdiv_any(value_of(v, team) as int, threshold as int) * threshold) as i32)
    } else {
        v.moxie_tracker.insert(team, get_or_i32(v.moxie_tracker, team, 0))
    }
}

/// What `consume_moxie_thresholds` accepts: a nonzero threshold and
/// quotients whose difference fits.
pub open spec fn consume_ok(v: BloodtitheView, team: i32, threshold: i32) -> bool {
    &&& threshold != 0
    &&& !(threshold == -1 && (value_of(v, team) == i32::MIN || get_or_i32(v.moxie_tracker, team, 0) == i32::MIN))
    &&& i32::MIN <= moxie_due(v, team, threshold) <= i32::MAX
}

fn write_capped(m: &mut HashMap<i32, i32>, team: i32, cap: i32)
    ensures
        final(m)@ == old(m)@.insert(team, min_i32(get_or_i32(old(m)@, team, 0), cap)),
{
    let cur = read_or_i32(m, team, 0);
    if cur > cap {
        m.insert(team, cap);
    } else {
        m.insert(team, cur);
    }
}

impl BloodtitheState {
    /// An empty, uninitialised pool.
    pub fn new() -> (r: Self)
        ensures
            r@ == (BloodtitheView {
                value: Map::empty(),
                max: Map::empty(),
                accumulator: Map::empty(),
                initialized: false,
                moxie_tracker: Map::empty(),
                gain: 0,
            }),
    {
        BloodtitheState {
            value: HashMap::new(),
            max: HashMap::new(),
            accumulator: HashMap::new(),
            initialized: false,
            moxie_threshold_tracker: HashMap::new(),
            gain: 0,
        }
    }

    /// Whether the pool has been set up for this battle.
    pub fn has_bloodpool(&self) -> (r: bool)
        ensures
            r == self@.initialized,
    {
        self.initialized
    }

    /// Sets the cap of `team_type` from its number of enabling allies and
    /// lowers its value to the new cap.
    pub fn recalc_max(&mut self, team_type: i32, enabler_count: i32)
        requires
            i32::MIN <= enabler_count * PER_ALLY_BONUS <= i32::MAX,
            i32::MIN <= cap_for(enabler_count) <= i32::MAX,
        ensures
            final(self)@ == with_cap(old(self)@, team_type, cap_for(enabler_count) as i32),
            within_caps(old(self)@) ==> within_caps(final(self)@),
    {
        let max = BASE_MAX + enabler_count * PER_ALLY_BONUS;
        self.max.insert(team_type, max);
        write_capped(&mut self.value, team_type, max);
        proof {
            if within_caps(old(self)@) {
                lemma_caps_kept(old(self)@, self@, team_type);
            }
        }
    }

    /// Adds `hp_lost` to the team's accumulator and turns every full
    /// `DAMAGE_PER_POINT` of it into a pool point while the pool is below
    /// its cap. Returns the points gained, `None` when there were none.
    pub fn on_hp_lost(&mut self, uid: i64, team_type: i32, hp_lost: i32) -> (r: Option<i32>)
        requires
            i32::MIN <= get_or_i32(old(self)@.accumulator, team_type, 0) + hp_lost <= i32::MAX,
        ensures
            ({
                let a0 = get_or_i32(old(self)@.accumulator, team_type, 0) + hp_lost;
                let v0 = value_of(old(self)@, team_type) as int;
                let n = points_gained(a0, v0, max_of_team(old(self)@, team_type) as int);
                &&& final(self)@ == (BloodtitheView {
                    accumulator: old(self)@.accumulator.insert(team_type, (a0 - DAMAGE_PER_POINT * n) as i32),
                    value: old(self)@.value.insert(team_type, (v0 + n) as i32),
                    gain: n as i32,
                    ..old(self)@
                })
                &&& r == (if n > 0 { Some(n as i32) } else { None })
                &&& get_or_i32(final(self)@.accumulator, team_type, 0) + DAMAGE_PER_POINT * n == a0
            }),
            within_caps(old(self)@) ==> within_caps(final(self)@),
    {
        let mut acc = read_or_i32(&self.accumulator, team_type, 0) + hp_lost;
        let max = read_or_i32(&self.max, team_type, BASE_MAX);
        let mut value = read_or_i32(&self.value, team_type, 0);
        let ghost a0 = acc as int;
        let ghost v0 = value as int;
        let ghost n = points_gained(a0, v0, max as int);
        let mut gained: i32 = 0;
        self.gain = 0;
        while acc >= DAMAGE_PER_POINT && value < max
            invariant
                0 <= gained <= n,
                n == points_gained(a0, v0, max as int),
                acc == a0 - DAMAGE_PER_POINT * gained,
                value == v0 + gained,
                i32::MIN <= a0 <= i32::MAX,
                self.gain == gained,
                self.value@ == old(self)@.value,
                self.max@ == old(self)@.max,
                self.accumulator@ == old(self)@.accumulator,
                self.initialized == old(self)@.initialized,
                self.moxie_threshold_tracker@ == old(self)@.moxie_tracker,
            decreases acc,
        {
            assert(gained + 1 <= n) by (nonlinear_arith)
                requires
                    a0 - 3000 * gained >= 3000,
                    v0 + gained < max,
                    gained >= 0,
                    n == points_gained(a0, v0, max as int),
            ;
            acc = acc - DAMAGE_PER_POINT;
            value = value + 1;
            gained = gained + 1;
            self.gain = gained;
        }
        assert(gained == n) by (nonlinear_arith)
            requires
                !(a0 - 3000 * gained >= 3000 && v0 + gained < max),
                0 <= gained <= n,
                n == points_gained(a0, v0, max as int),
        ;
        self.accumulator.insert(team_type, acc);
        self.value.insert(team_type, value);
        proof {
            if within_caps(old(self)@) {
                assert(value_of(old(self)@, team_type) <= max_of_team(old(self)@, team_type));
                lemma_caps_kept(old(self)@, self@, team_type);
            }
        }
        if gained > 0 {
            Some(gained)
        } else {
            None
        }
    }

    /// The pool value of `team_type`, `0` when unset.
    pub fn get_value(&self, team_type: i32) -> (r: i32)
        ensures
            r == value_of(self@, team_type),
    {
        read_or_i32(&self.value, team_type, 0)
    }

    /// The pool cap of `team_type`, `BASE_MAX` when unset.
    pub fn get_max(&self, team_type: i32) -> (r: i32)
        ensures
            r == max_of_team(self@, team_type),
    {
        read_or_i32(&self.max, team_type, BASE_MAX)
    }

    /// Sets the cap of `team_type` and lowers its value to it.
    pub fn set_max(&mut self, team_type: i32, max: i32)
        ensures
            final(self)@ == with_cap(old(self)@, team_type, max),
            within_caps(old(self)@) ==> within_caps(final(self)@),
    {
        self.max.insert(team_type, max);
        write_capped(&mut self.value, team_type, max);
        proof {
            if within_caps(old(self)@) {
                lemma_caps_kept(old(self)@, self@, team_type);
            }
        }
    }

    /// The hp-loss accumulator of `team_type`, `0` when unset.
    pub fn get_acc(&self, team_type: i32) -> (r: i32)
        ensures
            r == get_or_i32(self@.accumulator, team_type, 0),
    {
        read_or_i32(&self.accumulator, team_type, 0)
    }

    /// Sets the pool value of `team_type`, capped at its cap.
    pub fn set_value(&mut self, team_type: i32, value: i32)
        ensures
            final(self)@ == (BloodtitheView {
                value: old(self)@.value.insert(team_type, min_i32(value, max_of_team(old(self)@, team_type))),
                ..old(self)@
            }),
            within_caps(old(self)@) ==> within_caps(final(self)@),
    {
        let max = self.get_max(team_type);
        let capped = if max < value { max } else { value };
        self.value.insert(team_type, capped);
        proof {
            if within_caps(old(self)@) {
                lemma_caps_kept(old(self)@, self@, team_type);
            }
        }
    }

    /// Raises the pool value of `team_type` by `amount` (capped) and
    /// records `amount` as the latest gain.
    pub fn add_initial_gain(&mut self, team_type: i32, amount: i32)
        requires
            i32::MIN <= value_of(old(self)@, team_type) + amount <= i32::MAX,
        ensures
            final(self)@ == (BloodtitheView {
                value: old(self)@.value.insert(
                    team_type,
                    min_i32((value_of(old(self)@, team_type) + amount) as i32, max_of_team(old(self)@, team_type)),
                ),
                gain: amount,
                ..old(self)@
            }),
            within_caps(old(self)@) ==> within_caps(final(self)@),
    {
        let current = self.get_value(team_type);
        self.set_value(team_type, current + amount);
        set_gain(self, amount);
        proof {
            if within_caps(old(self)@) {
                lemma_caps_kept(old(self)@, self@, team_type);
            }
        }
    }

    /// The number of `threshold` steps the pool value has passed since the
    /// last call (never negative); the tracker then catches up.
    pub fn consume_moxie_thresholds(&mut self, team_type: i32, threshold: i32) -> (r: i32)
        requires
            consume_ok(old(self)@, team_type, threshold),
        ensures
            final(self)@ == (BloodtitheView {
                moxie_tracker: tracker_after_consume(old(self)@, team_type, threshold),
                ..old(self)@
            }),
            r == max_i32(moxie_due(old(self)@, team_type, threshold) as i32, 0),
    {
        let total = self.get_value(team_type);
        let tracker = read_or_i32(&self.moxie_threshold_tracker, team_type, 0);
        let q_total = div_trunc(total, threshold);
        let q_tracker = div_trunc(tracker, threshold);
        let new_moxie = q_total - q_tracker;
        if new_moxie > 0 {
            proof {
                if threshold > 0 {
                    lemma_tdiv_mul_back(total as int, threshold as int);
                } else {
                    lemma_tdiv_mul_back(total as int, -threshold as int);
                    assert((-tdiv(total as int, -threshold as int)) * threshold == tdiv(
                        total as int,
                        -threshold as int,
                    ) * (-threshold)) by (nonlinear_arith);
                }
            }
            self.moxie_threshold_tracker.insert(team_type, q_total * threshold);
        } else {
            self.moxie_threshold_tracker.insert(team_type, tracker);
        }
        if new_moxie > 0 {
            new_moxie
        } else {
            0
        }
    }

    /// Empties the values, caps and accumulators of every team.
    pub fn clear(&mut self)
        ensures
            final(self)@ == (BloodtitheView {
                value: Map::empty(),
                max: Map::empty(),
                accumulator: Map::empty(),
                ..old(self)@
            }),
            within_caps(final(self)@),
    {
        self.value.clear();
        self.max.clear();
        self.accumulator.clear();
        proof {
            assert forall|t: i32| #[trigger] value_of(self@, t) <= max_of_team(self@, t) by {}
        }
    }

    /// Drops the hp-loss accumulators and the recorded gain.
    pub fn reset_temporary_state(&mut self)
        ensures
            final(self)@ == (BloodtitheView { accumulator: Map::empty(), gain: 0, ..old(self)@ }),
            within_caps(old(self)@) ==> within_caps(final(self)@),
    {
        self.accumulator.clear();
        set_gain(self, 0);
        proof {
            if within_caps(old(self)@) {
                assert forall|t: i32| #[trigger] value_of(self@, t) <= max_of_team(self@, t) by {
                    assert(value_of(old(self)@, t) <= max_of_team(old(self)@, t));
                }
            }
        }
    }
}

/// Records `value` as the latest bloodtithe gain.
pub fn set_gain(state: &mut BloodtitheState, value: i32)
    ensures
        final(state)@ == (BloodtitheView { gain: value, ..old(state)@ }),
{
    state.gain = value;
}

/// Once `consume_moxie_thresholds` has caught the tracker up, an
/// immediate second call finds nothing due.
pub proof fn law_thresholds_are_paid_once(v: BloodtitheView, team: i32, threshold: i32)
    requires
        consume_ok(v, team, threshold),
    ensures
        ({
            let after = BloodtitheView { moxie_tracker: tracker_after_consume(v, team, threshold), ..v };
            max_i32(moxie_due(after, team, threshold) as i32, 0) == 0
        }),
{
    let after = BloodtitheView { moxie_tracker: tracker_after_consume(v, team, threshold), ..v };
    let total = value_of(v, team) as int;
    let t = threshold as int;
    if moxie_due(v, team, threshold) > 0 {
        let q = tdiv_any(total, t);
        if t > 0 {
            lemma_tdiv_mul_back(total, t);
        } else {
            lemma_tdiv_mul_back(total, -t);
            assert((-tdiv(total, -t)) * t == tdiv(total, -t) * (-t)) by (nonlinear_arith);
        }
        assert(get_or_i32(after.moxie_tracker, team, 0) == q * t);
        assert(tdiv_any(q * t, t) == q);
    }
}

/// Moxie thresholds are paid once: with a positive threshold `t`, a
/// non-negative pool and tracker, consuming moves the tracker to the
/// higher of the threshold multiples reached so far and by the pool now
/// (it never moves down), and pays exactly the multiples gained. Over any
/// run of calls the payments so add up to the highest multiple the pool
/// ever reached, less the one the tracker started at.
pub proof fn law_moxie_tracker_only_rises(v: BloodtitheView, team: i32, t: i32)
    requires
        t > 0,
        value_of(v, team) >= 0,
        get_or_i32(v.moxie_tracker, team, 0) >= 0,
        consume_ok(v, team, t),
    ensures
        ({
            let before = get_or_i32(v.moxie_tracker, team, 0) as int;
            let after = get_or_i32(tracker_after_consume(v, team, t), team, 0) as int;
            let value = value_of(v, team) as int;
            let paid = max_i32(moxie_due(v, team, t) as i32, 0) as int;
            &&& after >= 0
            &&& after / (t as int) == if value / (t as int) > before / (t as int) {
                value / (t as int)
            } else {
                before / (t as int)
            }
            &&& after / (t as int) >= before / (t as int)
            &&& paid == after / (t as int) - before / (t as int)
        }),
{
    let before = get_or_i32(v.moxie_tracker, team, 0) as int;
    let value = value_of(v, team) as int;
    let ti = t as int;
    if moxie_due(v, team, t) > 0 {
        lemma_tdiv_mul_back(value, ti);
        let q = value / ti;
        assert(q * ti <= value) by (nonlinear_arith)
            requires
                q == value / ti,
                ti > 0,
                value >= 0,
        ;
        assert(0 <= q * ti) by (nonlinear_arith)
            requires
                q == value / ti,
                ti > 0,
                value >= 0,
        ;
        assert((q * ti) / ti == q) by (nonlinear_arith)
            requires
                ti > 0,
        ;
    }
}

} // verus!
