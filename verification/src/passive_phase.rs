//! How a passive phase of a round is run: whose passives, how many
//! matches, which skill set, and how its steps are shaped.
use vstd::prelude::*;
use crate::fight::{Fight, opt_or, team_entities};
use crate::step_shape::{split_output, split_updates_and_wrap_rest};
use crate::step::{
    Effect, Step, StepV, EffectV, BUFF_UPDATE_EFFECT, effect_step, effect_step_v, effect_v, lemma_values_len,
    lemma_values_push, step_v, step_values, values, wrap_step, wrap_v,
};

verus! {

/// Whose passives a phase runs.
#[derive(Debug, Clone, Copy, PartialEq, Eq, Structural)]
pub enum PhaseScope {
    Attackers,
    Defenders,
}

/// Whether a phase stops at the first matching passive.
#[derive(Debug, Clone, Copy, PartialEq, Eq, Structural)]
pub enum PhaseDepth {
    FirstMatch,
    AllMatches,
}

/// Which passives a phase considers.
#[derive(Debug, Clone, Copy, PartialEq, Eq, Structural)]
pub enum PhaseSkillSet {
    CombatReactive,
    BattleRuleOnly,
    ExcludeBattleRule,
    DefenderBootstrap,
}

/// How a phase's steps are emitted.
#[derive(Debug, Clone, Copy, PartialEq, Eq, Structural)]
pub enum PhaseStepShape {
    FlatIfAllUpdate,
    Raw,
}

/// The settings of one passive phase.
#[derive(Debug, Clone, Copy, PartialEq, Eq, Structural)]
pub struct PassivePhaseConfig {
    pub scope: PhaseScope,
    pub depth: PhaseDepth,
    pub skill_set: PhaseSkillSet,
    pub step_shape: PhaseStepShape,
}

/// The round-start wrapper skill every reactive sweep still tries.
pub const ROUND_START_WRAPPER_SKILL_ID: i32 = 30630171;

/// The attribute effect type that closes a cycle broadcast.
pub const ATTR_EFFECT: i32 = 26;

/// The candidate skills after appending, for a defender, the battle-rule
/// skills not already listed and not among the battle's own passives
/// (`battle_defender`, `battle_attacker`), in order.
pub open spec fn with_rules(skills: Seq<i32>, rules: Seq<i32>, bd: Seq<i32>, ba: Seq<i32>) -> Seq<i32>
    decreases rules.len(),
{
    if rules.len() == 0 {
        skills
    } else {
        let prev = with_rules(skills, rules.drop_last(), bd, ba);
        let sid = rules.last();
        if !prev.contains(sid) && !bd.contains(sid) && !ba.contains(sid) { prev.push(sid) } else { prev }
    }
}

/// Whether a sweep tries `sid`: a reactive sweep only tries reactive skills
/// (and the round-start wrapper), and attackers never fire battle rules.
pub open spec fn tries(cfg: PassivePhaseConfig, is_attacker: bool, rules: Seq<i32>, reactive: Seq<i32>, sid: i32) -> bool {
    &&& !(cfg.skill_set == PhaseSkillSet::CombatReactive && sid != ROUND_START_WRAPPER_SKILL_ID && !reactive.contains(sid))
    &&& !(is_attacker && rules.contains(sid))
}

/// The skills of `c` the sweep tries, in order.
pub open spec fn tried_skills(
    cfg: PassivePhaseConfig,
    is_attacker: bool,
    rules: Seq<i32>,
    reactive: Seq<i32>,
    c: Seq<i32>,
) -> Seq<i32>
    decreases c.len(),
{
    if c.len() == 0 {
        Seq::empty()
    } else {
        let prev = tried_skills(cfg, is_attacker, rules, reactive, c.drop_last());
        if tries(cfg, is_attacker, rules, reactive, c.last()) { prev.push(c.last()) } else { prev }
    }
}

/// The skills a round sweep (`ExcludeBattleRule` or `CombatReactive`) tries
/// for one entity, in order: its own passives (`own`: collected,
/// buff-granted and magic-circle ones), then for a defender the battle
/// rules, less those the sweep skips.
pub open spec fn sweep_skill_list(
    cfg: PassivePhaseConfig,
    is_attacker: bool,
    own: Seq<i32>,
    rules: Seq<i32>,
    bd: Seq<i32>,
    ba: Seq<i32>,
    reactive: Seq<i32>,
) -> Seq<i32> {
    let c = if is_attacker { own } else { with_rules(own, rules, bd, ba) };
    tried_skills(cfg, is_attacker, rules, reactive, c)
}

fn contains_i32(v: &Vec<i32>, x: i32) -> (r: bool)
    ensures
        r == v@.contains(x),
{
    let mut i: usize = 0;
    while i < v.len()
        invariant
            i <= v@.len(),
            forall|k: int| 0 <= k < i ==> v@[k] != x,
        decreases v@.len() - i,
    {
        if v[i] == x {
            proof {
                assert(v@[i as int] == x);
            }
            return true;
        }
        i += 1;
    }
    false
}

/// Whether `uid` is on the attacker side of the battle (fielded or a
/// substitute).
pub open spec fn on_attacker_side(fight: Fight, uid: i64) -> bool {
    match fight.attacker {
        Some(a) => exists|k: int| 0 <= k < team_entities(a).len() && (#[trigger] team_entities(a)[k]).uid == Some(uid),
        None => false,
    }
}

/// Whether `uid` is on the attacker side of the battle.
pub fn uid_on_attacker_side(fight: &Fight, uid: i64) -> (r: bool)
    ensures
        r == on_attacker_side(*fight, uid),
{
    match &fight.attacker {
        Some(a) => {
            let mut i: usize = 0;
            while i < a.entitys.len()
                invariant
                    fight.attacker == Some(*a),
                    i <= a.entitys@.len(),
                    forall|k: int| 0 <= k < i ==> a.entitys@[k].uid != Some(uid),
                decreases a.entitys@.len() - i,
            {
                if a.entitys[i].uid == Some(uid) {
                    proof {
                        assert(team_entities(*a)[i as int] == a.entitys@[i as int]);
                        assert((team_entities(*a)[i as int]).uid == Some(uid));
                    }
                    return true;
                }
                i += 1;
            }
            let mut j: usize = 0;
            while j < a.sub_entitys.len()
                invariant
                    fight.attacker == Some(*a),
                    j <= a.sub_entitys@.len(),
                    forall|k: int| 0 <= k < j ==> a.sub_entitys@[k].uid != Some(uid),
                decreases a.sub_entitys@.len() - j,
            {
                if a.sub_entitys[j].uid == Some(uid) {
                    proof {
                        assert(team_entities(*a)[a.entitys@.len() + j] == a.sub_entitys@[j as int]);
                        assert((team_entities(*a)[a.entitys@.len() + j]).uid == Some(uid));
                    }
                    return true;
                }
                j += 1;
            }
            proof {
                assert forall|k: int| 0 <= k < team_entities(*a).len() implies (#[trigger] team_entities(*a)[k]).uid
                    != Some(uid) by {
                    if k < a.entitys@.len() {
                        assert(team_entities(*a)[k] == a.entitys@[k]);
                    } else {
                        assert(team_entities(*a)[k] == a.sub_entitys@[k - a.entitys@.len()]);
                    }
                }
            }
            false
        },
        None => false,
    }
}

/// The skills a round sweep tries for one entity, in order; see
/// [`sweep_skill_list`]. `reactive` lists the skills with a combat-reactive
/// condition.
pub fn sweep_skills(
    cfg: &PassivePhaseConfig,
    is_attacker: bool,
    own: &Vec<i32>,
    battle_rules: &Vec<i32>,
    battle_defender: &Vec<i32>,
    battle_attacker: &Vec<i32>,
    reactive: &Vec<i32>,
) -> (r: Vec<i32>)
    ensures
        r@ == sweep_skill_list(*cfg, is_attacker, own@, battle_rules@, battle_defender@, battle_attacker@, reactive@),
{
    let mut cands: Vec<i32> = Vec::new();
    let mut i: usize = 0;
    while i < own.len()
        invariant
            i <= own@.len(),
            cands@ == own@.take(i as int),
        decreases own@.len() - i,
    {
        cands.push(own[i]);
        proof {
            assert(own@.take(i + 1) =~= own@.take(i as int).push(own@[i as int]));
        }
        i += 1;
    }
    proof {
        assert(own@.take(own@.len() as int) =~= own@);
    }
    if !is_attacker {
        let mut k: usize = 0;
        proof {
            assert(battle_rules@.take(0) =~= Seq::<i32>::empty());
        }
        while k < battle_rules.len()
            invariant
                k <= battle_rules@.len(),
                cands@ == with_rules(own@, battle_rules@.take(k as int), battle_defender@, battle_attacker@),
            decreases battle_rules@.len() - k,
        {
            let sid = battle_rules[k];
            proof {
                assert(battle_rules@.take(k + 1).drop_last() =~= battle_rules@.take(k as int));
                assert(battle_rules@.take(k + 1).last() == sid);
            }
            if !contains_i32(&cands, sid) && !contains_i32(battle_defender, sid) && !contains_i32(battle_attacker, sid) {
                cands.push(sid);
            }
            k += 1;
        }
        proof {
            assert(battle_rules@.take(battle_rules@.len() as int) =~= battle_rules@);
        }
    }
    let ghost c = cands@;
    let mut out: Vec<i32> = Vec::new();
    let mut j: usize = 0;
    while j < cands.len()
        invariant
            c == cands@,
            j <= c.len(),
            out@ == tried_skills(*cfg, is_attacker, battle_rules@, reactive@, c.take(j as int)),
        decreases c.len() - j,
    {
        let sid = cands[j];
        proof {
            assert(c.take(j + 1).drop_last() =~= c.take(j as int));
            assert(c.take(j + 1).last() == sid);
        }
        let reactive_skip = cfg.skill_set == PhaseSkillSet::CombatReactive && sid != ROUND_START_WRAPPER_SKILL_ID
            && !contains_i32(reactive, sid);
        let rule_skip = is_attacker && contains_i32(battle_rules, sid);
        if !reactive_skip && !rule_skip {
            out.push(sid);
        }
        j += 1;
    }
    proof {
        assert(c.take(c.len() as int) =~= c);
    }
    out
}

/// A wrapper whose nested step holds only zero-valued buff-update and
/// attribute markers.
pub open spec fn marker_only(e: Effect) -> bool {
    match e.fight_step {
        Some(st) => st.act_effect@.len() > 0 && forall|k: int|
            0 <= k < st.act_effect@.len() ==> {
                let x = #[trigger] st.act_effect@[k];
                let t = opt_or(x.effect_type, 0);
                opt_or(x.effect_num, 0) == 0 && (t == BUFF_UPDATE_EFFECT || t == ATTR_EFFECT)
            },
        None => false,
    }
}

/// Whether `e` wraps a step of zero-valued buff-update and attribute
/// markers only.
pub fn is_marker_only_fight_step_effect(e: &Effect) -> (r: bool)
    ensures
        r == marker_only(*e),
{
    match &e.fight_step {
        Some(st) => {
            if st.act_effect.len() == 0 {
                return false;
            }
            let mut k: usize = 0;
            while k < st.act_effect.len()
                invariant
                    e.fight_step == Some(*st),
                    k <= st.act_effect@.len(),
                    forall|j: int| 0 <= j < k ==> {
                        let x = #[trigger] st.act_effect@[j];
                        let t = opt_or(x.effect_type, 0);
                        opt_or(x.effect_num, 0) == 0 && (t == BUFF_UPDATE_EFFECT || t == ATTR_EFFECT)
                    },
                decreases st.act_effect@.len() - k,
            {
                let x = &st.act_effect[k];
                let t = match x.effect_type {
                    Some(v) => v,
                    None => 0,
                };
                let num = match x.effect_num {
                    Some(v) => v,
                    None => 0,
                };
                if !(num == 0 && (t == BUFF_UPDATE_EFFECT || t == ATTR_EFFECT)) {
                    proof {
                        let xx = st.act_effect@[k as int];
                        assert(!(opt_or(xx.effect_num, 0) == 0 && (opt_or(xx.effect_type, 0) == BUFF_UPDATE_EFFECT
                            || opt_or(xx.effect_type, 0) == ATTR_EFFECT)));
                    }
                    return false;
                }
                k += 1;
            }
            true
        },
        None => false,
    }
}

/// The effects of `s` that are not marker-only wrappers, in order.
pub open spec fn non_markers(s: Seq<Effect>) -> Seq<Effect>
    decreases s.len(),
{
    if s.len() == 0 {
        Seq::empty()
    } else if marker_only(s.last()) {
        non_markers(s.drop_last())
    } else {
        non_markers(s.drop_last()).push(s.last())
    }
}

/// What one tried skill contributes: its output, less marker-only wrappers
/// when a defender sweep runs a reactive skill.
pub open spec fn contribution(out: Seq<Effect>, drop_markers: bool) -> Seq<Effect> {
    if drop_markers { non_markers(out) } else { out }
}

/// The effects a sweep gathers for one entity from the outputs of the
/// first `n` tried skills, and whether it stopped: with `first`, it stops
/// after the first skill that contributes anything.
pub open spec fn gathered(
    outs: Seq<Seq<Effect>>,
    drops: Seq<bool>,
    first: bool,
    n: int,
) -> (Seq<Effect>, bool)
    decreases n,
{
    if n <= 0 {
        (Seq::empty(), false)
    } else {
        let (acc, done) = gathered(outs, drops, first, n - 1);
        if done {
            (acc, true)
        } else {
            let k = contribution(outs[n - 1], drops[n - 1]);
            if k.len() == 0 { (acc, false) } else { (acc + k, first) }
        }
    }
}

/// Gathers one entity's sweep effects from the outputs of the skills
/// tried so far, in order (`outs[k]` the output of the `k`-th, empty when
/// it failed; `drops[k]` whether its marker-only wrappers go, as for a
/// reactive skill in a defender sweep); returns the effects and whether
/// the sweep is done (a first-match sweep is done after the first skill
/// that contributes). A driver runs the next skill only while not done.
pub fn gather_sweep_effects(outs: Vec<Vec<Effect>>, drops: &Vec<bool>, cfg: &PassivePhaseConfig) -> (r: (
    Vec<Effect>,
    bool,
))
    requires
        drops@.len() == outs@.len(),
    ensures
        ({
            let g = gathered(
                outs@.map_values(|v: Vec<Effect>| v@),
                drops@,
                cfg.depth == PhaseDepth::FirstMatch,
                outs@.len() as int,
            );
            r.0@ == g.0 && r.1 == g.1
        }),
{
    let ghost og = outs@.map_values(|v: Vec<Effect>| v@);
    let ghost n = outs@.len();
    proof {
        assert(n == outs.len());
        assert forall|k: int| 0 <= k < outs@.len() implies (#[trigger] outs@[k])@ == og[0 + k] by {}
    }
    let first = cfg.depth == PhaseDepth::FirstMatch;
    let mut rest = outs;
    let mut acc: Vec<Effect> = Vec::new();
    let mut done = false;
    let mut i: usize = 0;
    while rest.len() > 0
        invariant
            n == og.len(),
            n <= usize::MAX,
            drops@.len() == n,
            i <= n,
            rest@.len() == n - i,
            forall|k: int| 0 <= k < rest@.len() ==> (#[trigger] rest@[k])@ == og[i + k],
            first == (cfg.depth == PhaseDepth::FirstMatch),
            (acc@, done) == gathered(og, drops@, first, i as int),
        decreases rest@.len(),
    {
        let ghost rv = rest@;
        let out_i = rest.remove(0);
        proof {
            assert(out_i@ == og[i as int]);
            assert forall|k: int| 0 <= k < rest@.len() implies (#[trigger] rest@[k])@ == og[i + 1 + k] by {
                assert(rest@[k] == rv[k + 1]);
            }
        }
        if !done {
            let drop = drops[i];
            let mut kept: Vec<Effect> = Vec::new();
            let mut src = out_i;
            let ghost s = src@;
            proof {
                assert(s.len() == src.len());
            }
            let mut j: usize = 0;
            proof {
                assert(s.take(0) =~= Seq::<Effect>::empty());
            }
            while src.len() > 0
                invariant
                    s.len() <= usize::MAX,
                    j <= s.len(),
                    src@ == s.skip(j as int),
                    kept@ == contribution(s.take(j as int), drop),
                decreases src@.len(),
            {
                let e = src.remove(0);
                proof {
                    assert(e == s[j as int]);
                    assert(src@ =~= s.skip(j + 1));
                    assert(s.take(j + 1).drop_last() =~= s.take(j as int));
                    assert(s.take(j + 1).last() == e);
                    assert(s.take(j as int).push(e) =~= s.take(j + 1));
                }
                let m = drop && is_marker_only_fight_step_effect(&e);
                if !m {
                    kept.push(e);
                }
                j += 1;
            }
            proof {
                assert(s.take(s.len() as int) =~= s);
            }
            if kept.len() > 0 {
                let ghost a0 = acc@;
                acc.append(&mut kept);
                done = first;
                proof {
                    assert(acc@ == a0 + contribution(og[i as int], drops@[i as int]));
                }
            }
        }
        i += 1;
    }
    (acc, done)
}

/// The skill lists of entries `(uid, skills)`.
pub open spec fn lists_of(v: Seq<(i64, Vec<i32>)>) -> Seq<Seq<i32>> {
    v.map_values(|e: (i64, Vec<i32>)| e.1@)
}

/// `s` is strictly increasing.
pub open spec fn increasing(s: Seq<i32>) -> bool {
    forall|a: int, b: int| 0 <= a < b < s.len() ==> #[trigger] s[a] < #[trigger] s[b]
}

/// Inserts `x` into the increasing `v`, unless it is there already.
fn insert_sorted(v: &mut Vec<i32>, x: i32)
    requires
        increasing(old(v)@),
    ensures
        increasing(final(v)@),
        final(v)@.to_set() == old(v)@.to_set().insert(x),
{
    let mut i: usize = 0;
    while i < v.len() && v[i] < x
        invariant
            i <= v@.len(),
            increasing(v@),
            forall|k: int| 0 <= k < i ==> v@[k] < x,
        decreases v@.len() - i,
    {
        i += 1;
    }
    let ghost o = v@;
    if i < v.len() && v[i] == x {
        proof {
            assert(o.to_set() =~= o.to_set().insert(x)) by {
                assert(o.to_set().contains(o[i as int]));
            }
        }
        return ;
    }
    v.insert(i, x);
    proof {
        assert forall|a: int, b: int| 0 <= a < b < v@.len() implies #[trigger] v@[a] < #[trigger] v@[b] by {
            if b < i {
            } else if b == i {
                assert(v@[a] == o[a]);
            } else if a == i {
                assert(v@[b] == o[b - 1]);
                if i < o.len() {
                    assert(o[i as int] > x);
                    if b - 1 > i {
                        assert(o[i as int] < o[b - 1]);
                    }
                }
            } else if a < i {
                assert(v@[a] == o[a]);
                assert(v@[b] == o[b - 1]);
            } else {
                assert(v@[a] == o[a - 1]);
                assert(v@[b] == o[b - 1]);
            }
        }
        assert forall|y: i32| v@.to_set().contains(y) == o.to_set().insert(x).contains(y) by {
            if v@.contains(y) {
                let k = choose|k: int| 0 <= k < v@.len() && #[trigger] v@[k] == y;
                if k < i {
                    assert(o[k] == y);
                } else if k > i {
                    assert(o[k - 1] == y);
                }
            }
            if o.contains(y) {
                let k = choose|k: int| 0 <= k < o.len() && #[trigger] o[k] == y;
                if k < i {
                    assert(v@[k] == y);
                } else {
                    assert(v@[k + 1] == y);
                }
            }
            if y == x {
                assert(v@[i as int] == x);
            }
        }
        assert(v@.to_set() =~= o.to_set().insert(x));
    }
}

/// The skills any of the defenders carries (`merged[d]` the collected
/// passives of defender `d`).
pub open spec fn carried(merged: Seq<Seq<i32>>) -> Set<i32> {
    Set::new(|sid: i32| exists|d: int| 0 <= d < merged.len() && (#[trigger] merged[d]).contains(sid))
}

/// The order a defender bootstrap tries skills in: the carried skills
/// whose condition is "teammate alive, add a buff to self" (`teammate`),
/// increasing, then the carried battle-rule skills not yet listed,
/// increasing.
pub open spec fn is_bootstrap_order(r: Seq<i32>, merged: Seq<Seq<i32>>, teammate: Seq<i32>, rules: Seq<i32>) -> bool {
    exists|t: Seq<i32>, u: Seq<i32>|
        #![trigger t + u]
        r == t + u && increasing(t) && increasing(u) && t.to_set() == carried(merged).filter(
            |sid: i32| teammate.contains(sid),
        ) && u.to_set() == carried(merged).filter(|sid: i32| rules.contains(sid) && !teammate.contains(sid))
}

/// The order a defender bootstrap tries skills in; see
/// [`is_bootstrap_order`]. `teammate` lists the carried skills with the
/// "teammate alive, add a buff to self" condition, `rules` the battle-rule
/// skills.
pub fn bootstrap_order(merged: &Vec<(i64, Vec<i32>)>, teammate: &Vec<i32>, rules: &Vec<i32>) -> (r: Vec<i32>)
    ensures
        is_bootstrap_order(r@, lists_of(merged@), teammate@, rules@),
{
    let ghost m = lists_of(merged@);
    let mut t: Vec<i32> = Vec::new();
    let mut u: Vec<i32> = Vec::new();
    let mut d: usize = 0;
    while d < merged.len()
        invariant
            m == lists_of(merged@),
            d <= merged@.len(),
            increasing(t@),
            increasing(u@),
            t@.to_set() == Set::new(
                |sid: i32| exists|d2: int| 0 <= d2 < d && (#[trigger] m[d2]).contains(sid) && teammate@.contains(sid),
            ),
            u@.to_set() == Set::new(
                |sid: i32|
                    exists|d2: int|
                        0 <= d2 < d && (#[trigger] m[d2]).contains(sid) && rules@.contains(sid) && !teammate@.contains(sid),
            ),
        decreases merged@.len() - d,
    {
        let row = &merged[d].1;
        proof {
            assert(m[d as int] == row@);
        }
        let ghost t0 = t@.to_set();
        let ghost u0 = u@.to_set();
        let mut k: usize = 0;
        while k < row.len()
            invariant
                m == lists_of(merged@),
                d < merged@.len(),
                m[d as int] == row@,
                k <= row@.len(),
                increasing(t@),
                increasing(u@),
                t@.to_set() == t0.union(Set::new(|sid: i32| row@.take(k as int).contains(sid) && teammate@.contains(sid))),
                u@.to_set() == u0.union(
                    Set::new(|sid: i32| row@.take(k as int).contains(sid) && rules@.contains(sid) && !teammate@.contains(sid)),
                ),
            decreases row@.len() - k,
        {
            let sid = row[k];
            let is_t = contains_i32(teammate, sid);
            let is_r = contains_i32(rules, sid);
            let ghost tb = t@.to_set();
            let ghost ub = u@.to_set();
            if is_t {
                insert_sorted(&mut t, sid);
            } else if is_r {
                insert_sorted(&mut u, sid);
            }
            proof {
                assert forall|y: i32| row@.take(k + 1).contains(y) == (row@.take(k as int).contains(y) || y == sid) by {
                    if row@.take(k + 1).contains(y) {
                        let j = choose|j: int| 0 <= j < k + 1 && #[trigger] row@.take(k + 1)[j] == y;
                        if j < k {
                            assert(row@.take(k as int)[j] == y);
                        }
                    }
                    if row@.take(k as int).contains(y) {
                        let j = choose|j: int| 0 <= j < k && #[trigger] row@.take(k as int)[j] == y;
                        assert(row@.take(k + 1)[j] == y);
                    }
                    if y == sid {
                        assert(row@.take(k + 1)[k as int] == y);
                    }
                }
                assert(t@.to_set() == (if is_t { tb.insert(sid) } else { tb }));
                assert(u@.to_set() == (if !is_t && is_r { ub.insert(sid) } else { ub }));
                let tn = t0.union(Set::new(|y: i32| row@.take(k + 1).contains(y) && teammate@.contains(y)));
                let un = u0.union(
                    Set::new(|y: i32| row@.take(k + 1).contains(y) && rules@.contains(y) && !teammate@.contains(y)),
                );
                assert forall|y: i32| t@.to_set().contains(y) == tn.contains(y) by {
                    assert(tb.contains(y) == (t0.contains(y) || (row@.take(k as int).contains(y) && teammate@.contains(y))));
                }
                assert forall|y: i32| u@.to_set().contains(y) == un.contains(y) by {
                    assert(ub.contains(y) == (u0.contains(y) || (row@.take(k as int).contains(y) && rules@.contains(y)
                        && !teammate@.contains(y))));
                }
                assert(t@.to_set() =~= tn);
                assert(u@.to_set() =~= un);
            }
            k += 1;
        }
        proof {
            assert(row@.take(row@.len() as int) =~= row@);
            assert(t@.to_set() =~= Set::new(
                |sid: i32| exists|d2: int| 0 <= d2 < d + 1 && (#[trigger] m[d2]).contains(sid) && teammate@.contains(sid),
            ));
            assert(u@.to_set() =~= Set::new(
                |sid: i32|
                    exists|d2: int|
                        0 <= d2 < d + 1 && (#[trigger] m[d2]).contains(sid) && rules@.contains(sid) && !teammate@.contains(sid),
            ));
        }
        d += 1;
    }
    let ghost tv = t@;
    let ghost uv = u@;
    let mut r = t;
    let mut uu = u;
    r.append(&mut uu);
    proof {
        assert(tv.to_set() =~= carried(m).filter(|sid: i32| teammate@.contains(sid)));
        assert(uv.to_set() =~= carried(m).filter(|sid: i32| rules@.contains(sid) && !teammate@.contains(sid)));
        assert(r@ == tv + uv);
    }
    r
}

/// The views of the outputs.
pub open spec fn out_views(v: Seq<Vec<Effect>>) -> Seq<Seq<Effect>> {
    v.map_values(|e: Vec<Effect>| e@)
}

/// Whether the `k`-th tried skill of a sweep drops marker-only wrappers: a
/// defender sweep running a reactive skill.
pub open spec fn drops_of(cfg: PassivePhaseConfig, skills: Seq<i32>, reactive: Seq<i32>) -> Seq<bool> {
    Seq::new(skills.len(), |k: int| cfg.scope == PhaseScope::Defenders && reactive.contains(skills[k]))
}

/// The sweep of one entity as it unfolds: `outs` are the outputs of the
/// skills run so far (the first of `skills`, in order); the sweep ran as
/// long as it was not done, and no longer.
pub open spec fn ran_sweep(outs: Seq<Seq<Effect>>, drops: Seq<bool>, first: bool, skills_len: int) -> bool {
    &&& outs.len() <= skills_len
    &&& forall|m: int| 0 <= m < outs.len() ==> !(#[trigger] gathered(outs, drops, first, m)).1
    &&& (outs.len() == skills_len || gathered(outs, drops, first, outs.len() as int).1)
}

/// `r` is what one entity's round sweep gathers: the skills of
/// [`sweep_skill_list`] run with `execute` in order, as long as the sweep
/// is not done, their outputs gathered.
pub open spec fn sweep_result<F: Fn(i64, i32) -> Vec<Effect>>(
    cfg: PassivePhaseConfig,
    uid: i64,
    is_attacker: bool,
    own: Seq<i32>,
    rules: Seq<i32>,
    bd: Seq<i32>,
    ba: Seq<i32>,
    reactive: Seq<i32>,
    execute: F,
    r: Seq<Effect>,
) -> bool {
    let skills = sweep_skill_list(cfg, is_attacker, own, rules, bd, ba, reactive);
    let drops = drops_of(cfg, skills, reactive);
    let first = cfg.depth == PhaseDepth::FirstMatch;
    exists|outs: Seq<Vec<Effect>>|
        {
            &&& forall|k: int| 0 <= k < outs.len() ==> call_ensures(execute, (uid, skills[k]), #[trigger] outs[k])
            &&& ran_sweep(out_views(outs), drops, first, skills.len() as int)
            &&& r == gathered(out_views(outs), drops, first, outs.len() as int).0
        }
}

/// Runs one entity's round sweep: tries its skills (see
/// [`sweep_skill_list`]) with `execute` (skill id's output for the entity,
/// empty when it fails) in order, stopping after the first that contributes
/// when the phase is first-match, and returns the gathered effects.
pub fn sweep_entity<F: Fn(i64, i32) -> Vec<Effect>>(
    cfg: &PassivePhaseConfig,
    uid: i64,
    is_attacker: bool,
    own: &Vec<i32>,
    battle_rules: &Vec<i32>,
    battle_defender: &Vec<i32>,
    battle_attacker: &Vec<i32>,
    reactive: &Vec<i32>,
    execute: &F,
) -> (r: Vec<Effect>)
    requires
        forall|u: i64, sid: i32| call_requires(execute, (u, sid)),
    ensures
        sweep_result(
            *cfg,
            uid,
            is_attacker,
            own@,
            battle_rules@,
            battle_defender@,
            battle_attacker@,
            reactive@,
            *execute,
            r@,
        ),
{
    let skills = sweep_skills(cfg, is_attacker, own, battle_rules, battle_defender, battle_attacker, reactive);
    let ghost drops = drops_of(*cfg, skills@, reactive@);
    let first = cfg.depth == PhaseDepth::FirstMatch;
    let defender_sweep = cfg.scope == PhaseScope::Defenders;
    let mut outs: Vec<Vec<Effect>> = Vec::new();
    let mut dr: Vec<bool> = Vec::new();
    let mut done = false;
    let mut k: usize = 0;
    while k < skills.len() && !done
        invariant
            forall|u: i64, sid: i32| call_requires(execute, (u, sid)),
            drops == drops_of(*cfg, skills@, reactive@),
            first == (cfg.depth == PhaseDepth::FirstMatch),
            defender_sweep == (cfg.scope == PhaseScope::Defenders),
            k <= skills@.len(),
            outs@.len() == k,
            dr@ == drops.take(k as int),
            forall|j: int| 0 <= j < k ==> call_ensures(execute, (uid, skills@[j]), #[trigger] outs@[j]),
            forall|m: int| 0 <= m < k ==> !(#[trigger] gathered(out_views(outs@), drops, first, m)).1,
            done == gathered(out_views(outs@), drops, first, k as int).1,
        decreases skills@.len() - k,
    {
        let sid = skills[k];
        let out = execute(uid, sid);
        let d = defender_sweep && contains_i32(reactive, sid);
        let ghost before = outs@;
        outs.push(out);
        dr.push(d);
        proof {
            assert(dr@ =~= drops.take(k + 1));
            let bm = out_views(before);
            let am = out_views(outs@);
            assert forall|m: int| 0 <= m <= k implies #[trigger] gathered(am, drops, first, m) == gathered(bm, drops, first, m) by {
                lemma_gathered_prefix(am, bm, drops, first, m);
            }
        }
        let ghost am = out_views(outs@);
        proof {
            assert(!gathered(am, drops, first, k as int).1);
        }
        // done after this output exactly when it contributes in a first-match sweep
        let contributes = contributes_any(&outs[k], d);
        proof {
            assert(am[k as int] == outs@[k as int]@);
            assert(drops[k as int] == d);
        }
        done = first && contributes;
        k += 1;
    }
    let ghost om = out_views(outs@);
    proof {
        assert(dr@.len() == outs@.len());
        assert forall|j: int| 0 <= j < outs@.len() implies #[trigger] drops[j] == dr@[j] by {}
        lemma_gathered_drops(om, drops, dr@, first, outs@.len() as int);
        assert(om =~= out_views(outs@));
    }
    let (acc, _d) = gather_sweep_effects(outs, &dr, cfg);
    acc
}

proof fn lemma_gathered_prefix(a: Seq<Seq<Effect>>, b: Seq<Seq<Effect>>, drops: Seq<bool>, first: bool, m: int)
    requires
        0 <= m <= b.len(),
        b.len() <= a.len(),
        forall|j: int| 0 <= j < b.len() ==> a[j] == b[j],
    ensures
        gathered(a, drops, first, m) == gathered(b, drops, first, m),
    decreases m,
{
    if m > 0 {
        lemma_gathered_prefix(a, b, drops, first, m - 1);
    }
}

proof fn lemma_gathered_drops(outs: Seq<Seq<Effect>>, d1: Seq<bool>, d2: Seq<bool>, first: bool, m: int)
    requires
        0 <= m <= outs.len(),
        m <= d2.len(),
        m <= d1.len(),
        forall|j: int| 0 <= j < m ==> d1[j] == d2[j],
    ensures
        gathered(outs, d1, first, m) == gathered(outs, d2, first, m),
    decreases m,
{
    if m > 0 {
        lemma_gathered_drops(outs, d1, d2, first, m - 1);
    }
}

/// Whether `out` contributes anything once marker-only wrappers are dropped
/// (when `drop`).
fn contributes_any(out: &Vec<Effect>, drop: bool) -> (r: bool)
    ensures
        r == (contribution(out@, drop).len() > 0),
{
    if !drop {
        return out.len() > 0;
    }
    let mut k: usize = 0;
    proof {
        assert(out@.take(0) =~= Seq::<Effect>::empty());
    }
    while k < out.len()
        invariant
            drop,
            k <= out@.len(),
            non_markers(out@.take(k as int)).len() == 0,
        decreases out@.len() - k,
    {
        proof {
            assert(out@.take(k + 1).drop_last() =~= out@.take(k as int));
            assert(out@.take(k + 1).last() == out@[k as int]);
        }
        if !is_marker_only_fight_step_effect(&out[k]) {
            proof {
                lemma_non_markers_grow(out@, k as int);
            }
            return true;
        }
        k += 1;
    }
    proof {
        assert(out@.take(out@.len() as int) =~= out@);
    }
    false
}

proof fn lemma_non_markers_grow(s: Seq<Effect>, k: int)
    requires
        0 <= k < s.len(),
        !marker_only(s[k]),
    ensures
        non_markers(s).len() > 0,
    decreases s.len(),
{
    if k < s.len() - 1 {
        assert(s.drop_last()[k] == s[k]);
        lemma_non_markers_grow(s.drop_last(), k);
    }
}

/// One effect step per non-empty effect list among the first `n` of `gs`.
pub open spec fn nonempty_steps(gs: Seq<Seq<Effect>>, n: int) -> Seq<StepV>
    decreases n,
{
    if n <= 0 {
        Seq::empty()
    } else if gs[n - 1].len() > 0 {
        nonempty_steps(gs, n - 1).push(effect_step_v(values(gs[n - 1])))
    } else {
        nonempty_steps(gs, n - 1)
    }
}

/// `es[u]` is what the sweep of entry `u` gathers, the entry's own skills
/// followed by `extra[u]`.
pub open spec fn sweeps_ran<F: Fn(i64, i32) -> Vec<Effect>>(
    cfg: PassivePhaseConfig,
    fight: Fight,
    entries: Seq<(i64, Vec<i32>)>,
    extra: Seq<Vec<i32>>,
    rules: Seq<i32>,
    bd: Seq<i32>,
    ba: Seq<i32>,
    reactive: Seq<i32>,
    execute: F,
    es: Seq<Seq<Effect>>,
) -> bool {
    &&& es.len() == entries.len()
    &&& forall|u: int|
        0 <= u < entries.len() ==> sweep_result(
            cfg,
            entries[u].0,
            on_attacker_side(fight, entries[u].0),
            entries[u].1@ + extra[u]@,
            rules,
            bd,
            ba,
            reactive,
            execute,
            #[trigger] es[u],
        )
}

/// Runs the round sweep of every entry in order: one effect step per
/// entity that gathers anything.
pub fn run_sweeps<F: Fn(i64, i32) -> Vec<Effect>>(
    cfg: &PassivePhaseConfig,
    fight: &Fight,
    entries: &Vec<(i64, Vec<i32>)>,
    extra: &Vec<Vec<i32>>,
    rules: &Vec<i32>,
    bd: &Vec<i32>,
    ba: &Vec<i32>,
    reactive: &Vec<i32>,
    execute: &F,
) -> (r: Vec<Step>)
    requires
        extra@.len() == entries@.len(),
        forall|u: i64, sid: i32| call_requires(*execute, (u, sid)),
    ensures
        exists|es: Seq<Seq<Effect>>|
            sweeps_ran(*cfg, *fight, entries@, extra@, rules@, bd@, ba@, reactive@, *execute, es)
                && step_values(r@) == nonempty_steps(es, es.len() as int),
{
    let mut out: Vec<Step> = Vec::new();
    let ghost mut es: Seq<Seq<Effect>> = Seq::empty();
    let mut u: usize = 0;
    while u < entries.len()
        invariant
            extra@.len() == entries@.len(),
            forall|u2: i64, sid: i32| call_requires(*execute, (u2, sid)),
            u <= entries@.len(),
            es.len() == u,
            forall|j: int|
                0 <= j < u ==> sweep_result(
                    *cfg,
                    entries@[j].0,
                    on_attacker_side(*fight, entries@[j].0),
                    entries@[j].1@ + extra@[j]@,
                    rules@,
                    bd@,
                    ba@,
                    reactive@,
                    *execute,
                    #[trigger] es[j],
                ),
            step_values(out@) == nonempty_steps(es, u as int),
        decreases entries@.len() - u,
    {
        let uid = entries[u].0;
        let mut own: Vec<i32> = Vec::new();
        let mut k: usize = 0;
        while k < entries[u].1.len()
            invariant
                u < entries@.len(),
                k <= entries@[u as int].1@.len(),
                own@ == entries@[u as int].1@.take(k as int),
            decreases entries@[u as int].1@.len() - k,
        {
            own.push(entries[u].1[k]);
            proof {
                assert(entries@[u as int].1@.take(k + 1) =~= entries@[u as int].1@.take(k as int).push(entries@[u as int].1@[k as int]));
            }
            k += 1;
        }
        let mut k: usize = 0;
        let ghost base = own@;
        while k < extra[u].len()
            invariant
                u < entries@.len(),
                extra@.len() == entries@.len(),
                k <= extra@[u as int]@.len(),
                own@ == base + extra@[u as int]@.take(k as int),
            decreases extra@[u as int]@.len() - k,
        {
            own.push(extra[u][k]);
            proof {
                assert(base + extra@[u as int]@.take(k + 1) =~= (base + extra@[u as int]@.take(k as int)).push(extra@[u as int]@[k as int]));
            }
            k += 1;
        }
        proof {
            assert(entries@[u as int].1@.take(entries@[u as int].1@.len() as int) =~= entries@[u as int].1@);
            assert(extra@[u as int]@.take(extra@[u as int]@.len() as int) =~= extra@[u as int]@);
        }
        let att = uid_on_attacker_side(fight, uid);
        let eff = sweep_entity(cfg, uid, att, &own, rules, bd, ba, reactive, execute);
        let ghost ev = eff@;
        let ghost o = out@;
        if eff.len() > 0 {
            let st = effect_step(eff);
            out.push(st);
            proof {
                assert(step_values(out@) =~= step_values(o).push(step_v(st)));
                assert(step_v(st) == effect_step_v(values(ev)));
            }
        }
        proof {
            let es0 = es;
            es = es.push(ev);
            assert(es.drop_last() =~= es0);
            assert(es[u as int] == ev);
            assert forall|j: int|
                0 <= j < u + 1 implies sweep_result(
                *cfg,
                entries@[j].0,
                on_attacker_side(*fight, entries@[j].0),
                entries@[j].1@ + extra@[j]@,
                rules@,
                bd@,
                ba@,
                reactive@,
                *execute,
                #[trigger] es[j],
            ) by {}
            assert(nonempty_steps(es, u as int) == nonempty_steps(es.drop_last(), u as int)) by {
                lemma_nonempty_prefix(es, es.drop_last(), u as int);
            }
            assert(step_values(out@) == nonempty_steps(es, u + 1));
        }
        u += 1;
    }
    proof {
        assert(sweeps_ran(*cfg, *fight, entries@, extra@, rules@, bd@, ba@, reactive@, *execute, es));
        assert(step_values(out@) == nonempty_steps(es, es.len() as int));
    }
    out
}

proof fn lemma_nonempty_prefix(a: Seq<Seq<Effect>>, b: Seq<Seq<Effect>>, n: int)
    requires
        0 <= n <= b.len(),
        b.len() <= a.len(),
        forall|j: int| 0 <= j < b.len() ==> a[j] == b[j],
    ensures
        nonempty_steps(a, n) == nonempty_steps(b, n),
    decreases n,
{
    if n > 0 {
        lemma_nonempty_prefix(a, b, n - 1);
    }
}

/// The wrappers of the non-empty outputs among the first `n` of `outs`.
pub open spec fn group_wraps(outs: Seq<Vec<Effect>>, n: int) -> Seq<EffectV>
    decreases n,
{
    if n <= 0 {
        Seq::empty()
    } else if outs[n - 1]@.len() > 0 {
        group_wraps(outs, n - 1).push(wrap_v(effect_step_v(values(outs[n - 1]@))))
    } else {
        group_wraps(outs, n - 1)
    }
}

/// One effect step per skill among the first `n` whose wrappers are not
/// empty.
pub open spec fn grouped(outs: Seq<Seq<Vec<Effect>>>, n: int) -> Seq<StepV>
    decreases n,
{
    if n <= 0 {
        Seq::empty()
    } else {
        let w = group_wraps(outs[n - 1], outs[n - 1].len() as int);
        if w.len() > 0 { grouped(outs, n - 1).push(effect_step_v(w)) } else { grouped(outs, n - 1) }
    }
}

/// `outs[s][d]` is the output of skill `s` run for entry `d` when the entry
/// carries it (empty otherwise).
pub open spec fn grouped_ran<F: Fn(i64, i32) -> Vec<Effect>>(
    execute: F,
    skills: Seq<i32>,
    entries: Seq<(i64, Vec<i32>)>,
    outs: Seq<Seq<Vec<Effect>>>,
) -> bool {
    &&& outs.len() == skills.len()
    &&& forall|s: int| 0 <= s < skills.len() ==> (#[trigger] outs[s]).len() == entries.len()
    &&& forall|s: int, d: int|
        0 <= s < skills.len() && 0 <= d < entries.len() ==> if entries[d].1@.contains(skills[s]) {
            call_ensures(execute, (entries[d].0, skills[s]), #[trigger] outs[s][d])
        } else {
            outs[s][d]@.len() == 0
        }
}

/// Runs the skills in order, each for every entry that carries it: one
/// effect step per skill wrapping the non-empty outputs.
pub fn run_grouped<F: Fn(i64, i32) -> Vec<Effect>>(skills: &Vec<i32>, entries: &Vec<(i64, Vec<i32>)>, execute: &F) -> (r:
    Vec<Step>)
    requires
        forall|u: i64, sid: i32| call_requires(*execute, (u, sid)),
    ensures
        exists|outs: Seq<Seq<Vec<Effect>>>|
            grouped_ran(*execute, skills@, entries@, outs) && step_values(r@) == grouped(outs, outs.len() as int),
{
    let mut out: Vec<Step> = Vec::new();
    let ghost mut outs: Seq<Seq<Vec<Effect>>> = Seq::empty();
    let mut s: usize = 0;
    while s < skills.len()
        invariant
            forall|u: i64, sid: i32| call_requires(*execute, (u, sid)),
            s <= skills@.len(),
            outs.len() == s,
            forall|s2: int| 0 <= s2 < s ==> (#[trigger] outs[s2]).len() == entries@.len(),
            forall|s2: int, d: int|
                0 <= s2 < s && 0 <= d < entries@.len() ==> if entries@[d].1@.contains(skills@[s2]) {
                    call_ensures(*execute, (entries@[d].0, skills@[s2]), #[trigger] outs[s2][d])
                } else {
                    outs[s2][d]@.len() == 0
                },
            step_values(out@) == grouped(outs, s as int),
        decreases skills@.len() - s,
    {
        let sid = skills[s];
        let mut wrapped: Vec<Effect> = Vec::new();
        let ghost mut row: Seq<Vec<Effect>> = Seq::empty();
        let mut d: usize = 0;
        while d < entries.len()
            invariant
                forall|u: i64, sid2: i32| call_requires(*execute, (u, sid2)),
                s < skills@.len(),
                sid == skills@[s as int],
                d <= entries@.len(),
                row.len() == d,
                forall|d2: int| 0 <= d2 < d ==> if entries@[d2].1@.contains(sid) {
                    call_ensures(*execute, (entries@[d2].0, sid), #[trigger] row[d2])
                } else {
                    row[d2]@.len() == 0
                },
                values(wrapped@) == group_wraps(row, d as int),
            decreases entries@.len() - d,
        {
            let carries = contains_i32(&entries[d].1, sid);
            if carries {
                let o = execute(entries[d].0, sid);
                let ghost ov = o;
                let ghost w0 = values(wrapped@);
                if o.len() > 0 {
                    let w = wrap_step(effect_step(o));
                    proof {
                        lemma_values_push(wrapped@, w);
                        assert(effect_v(w) == wrap_v(effect_step_v(values(ov@))));
                    }
                    wrapped.push(w);
                }
                proof {
                    let r0 = row;
                    row = row.push(ov);
                    assert(row.drop_last() =~= r0);
                    assert(row[d as int] == ov);
                    lemma_group_prefix(row, r0, d as int);
                    assert(values(wrapped@) == group_wraps(row, d + 1));
                }
            } else {
                let none: Vec<Effect> = Vec::new();
                let ghost ov = none;
                proof {
                    let r0 = row;
                    row = row.push(ov);
                    assert(row.drop_last() =~= r0);
                    assert(row[d as int] == ov);
                    lemma_group_prefix(row, r0, d as int);
                    assert(values(wrapped@) == group_wraps(row, d + 1));
                }
            }
            proof {
                assert forall|d2: int| 0 <= d2 < d + 1 implies if entries@[d2].1@.contains(sid) {
                    call_ensures(*execute, (entries@[d2].0, sid), #[trigger] row[d2])
                } else {
                    row[d2]@.len() == 0
                } by {}
            }
            d += 1;
        }
        let ghost o0 = out@;
        let ghost wv = values(wrapped@);
        proof {
            lemma_values_len(wrapped@, wrapped@.len() as int);
        }
        if wrapped.len() > 0 {
            let st = effect_step(wrapped);
            out.push(st);
            proof {
                assert(step_values(out@) =~= step_values(o0).push(step_v(st)));
                assert(step_v(st) == effect_step_v(wv));
            }
        }
        proof {
            let q0 = outs;
            outs = outs.push(row);
            assert(outs.drop_last() =~= q0);
            assert(outs[s as int] == row);
            lemma_grouped_prefix(outs, q0, s as int);
            assert(step_values(out@) == grouped(outs, s + 1));
        }
        s += 1;
    }
    proof {
        assert(grouped_ran(*execute, skills@, entries@, outs));
        assert(step_values(out@) == grouped(outs, outs.len() as int));
    }
    out
}

proof fn lemma_group_prefix(a: Seq<Vec<Effect>>, b: Seq<Vec<Effect>>, n: int)
    requires
        0 <= n <= b.len(),
        b.len() <= a.len(),
        forall|j: int| 0 <= j < b.len() ==> a[j] == b[j],
    ensures
        group_wraps(a, n) == group_wraps(b, n),
    decreases n,
{
    if n > 0 {
        lemma_group_prefix(a, b, n - 1);
    }
}

proof fn lemma_grouped_prefix(a: Seq<Seq<Vec<Effect>>>, b: Seq<Seq<Vec<Effect>>>, n: int)
    requires
        0 <= n <= b.len(),
        b.len() <= a.len(),
        forall|j: int| 0 <= j < b.len() ==> a[j] == b[j],
    ensures
        grouped(a, n) == grouped(b, n),
    decreases n,
{
    if n > 0 {
        lemma_grouped_prefix(a, b, n - 1);
    }
}

/// `s` does not decrease.
pub open spec fn sorted_le(s: Seq<i32>) -> bool {
    forall|a: int, b: int| 0 <= a < b < s.len() ==> #[trigger] s[a] <= #[trigger] s[b]
}

/// Inserts `x` into the non-decreasing `v`, after any equal elements.
fn insert_sorted_dup(v: &mut Vec<i32>, x: i32)
    requires
        sorted_le(old(v)@),
    ensures
        sorted_le(final(v)@),
        final(v)@.to_multiset() == old(v)@.to_multiset().insert(x),
{
    broadcast use vstd::multiset::group_multiset_axioms;
    let mut i: usize = 0;
    while i < v.len() && v[i] <= x
        invariant
            i <= v@.len(),
            sorted_le(v@),
            forall|k: int| 0 <= k < i ==> v@[k] <= x,
        decreases v@.len() - i,
    {
        i += 1;
    }
    let ghost o = v@;
    v.insert(i, x);
    proof {
        assert forall|a: int, b: int| 0 <= a < b < v@.len() implies #[trigger] v@[a] <= #[trigger] v@[b] by {
            if b < i {
            } else if b == i {
                assert(v@[a] == o[a]);
            } else if a == i {
                assert(v@[b] == o[b - 1]);
                if i < o.len() {
                    assert(o[i as int] > x);
                    if b - 1 > i {
                        assert(o[i as int] <= o[b - 1]);
                    }
                }
            } else if a < i {
                assert(v@[a] == o[a]);
                assert(v@[b] == o[b - 1]);
            } else {
                assert(v@[a] == o[a - 1]);
                assert(v@[b] == o[b - 1]);
            }
        }
        assert(v@.remove(i as int) =~= o);
        vstd::seq_lib::to_multiset_remove(v@, i as int);
        assert(v@[i as int] == x);
        v@.to_multiset_ensures();
        assert(v@.contains(x));
        assert(v@.to_multiset() =~= o.to_multiset().insert(x));
    }
}

/// The battle-rule skills a battle-rule-only phase may run, in rule order:
/// those some fielded living attacker carries, that are not defender-only
/// rules and whose condition is not a target career.
pub open spec fn rule_candidates(lists: Seq<Seq<i32>>, rules: Seq<i32>, defender_only: Seq<i32>, career: Seq<i32>) -> Seq<i32>
    decreases rules.len(),
{
    if rules.len() == 0 {
        Seq::empty()
    } else {
        let prev = rule_candidates(lists, rules.drop_last(), defender_only, career);
        let sid = rules.last();
        if (exists|d: int| 0 <= d < lists.len() && (#[trigger] lists[d]).contains(sid)) && !defender_only.contains(sid)
            && !career.contains(sid) {
            prev.push(sid)
        } else {
            prev
        }
    }
}

/// The order a battle-rule-only phase runs skills in: its candidates
/// sorted (duplicates kept).
pub fn rule_only_order(
    attackers: &Vec<(i64, Vec<i32>)>,
    rules: &Vec<i32>,
    defender_only: &Vec<i32>,
    career: &Vec<i32>,
) -> (r: Vec<i32>)
    ensures
        sorted_le(r@),
        r@.to_multiset() == rule_candidates(lists_of(attackers@), rules@, defender_only@, career@).to_multiset(),
{
    broadcast use vstd::multiset::group_multiset_axioms;
    let ghost m = lists_of(attackers@);
    let mut out: Vec<i32> = Vec::new();
    let mut k: usize = 0;
    proof {
        assert(rules@.take(0) =~= Seq::<i32>::empty());
        assert(out@ =~= rule_candidates(m, rules@.take(0), defender_only@, career@));
    }
    while k < rules.len()
        invariant
            m == lists_of(attackers@),
            k <= rules@.len(),
            sorted_le(out@),
            out@.to_multiset() == rule_candidates(m, rules@.take(k as int), defender_only@, career@).to_multiset(),
        decreases rules@.len() - k,
    {
        let sid = rules[k];
        proof {
            assert(rules@.take(k + 1).drop_last() =~= rules@.take(k as int));
            assert(rules@.take(k + 1).last() == sid);
        }
        let mut carried = false;
        let mut d: usize = 0;
        while d < attackers.len()
            invariant
                m == lists_of(attackers@),
                d <= attackers@.len(),
                carried == exists|d2: int| 0 <= d2 < d && (#[trigger] m[d2]).contains(sid),
            decreases attackers@.len() - d,
        {
            proof {
                assert(m[d as int] == attackers@[d as int].1@);
            }
            if contains_i32(&attackers[d].1, sid) {
                carried = true;
            }
            d += 1;
        }
        let ghost prev = rule_candidates(m, rules@.take(k as int), defender_only@, career@);
        if carried && !contains_i32(defender_only, sid) && !contains_i32(career, sid) {
            insert_sorted_dup(&mut out, sid);
            proof {
                vstd::seq_lib::to_multiset_build(prev, sid);
            }
        }
        k += 1;
    }
    proof {
        assert(rules@.take(rules@.len() as int) =~= rules@);
    }
    out
}

/// The passives collected for a round: each side's entities with their
/// collected passive skills, and the battle's own passives per side.
pub struct CollectedPassives {
    pub attacker: Vec<(i64, Vec<i32>)>,
    pub defender: Vec<(i64, Vec<i32>)>,
    pub battle_attacker: Vec<i32>,
    pub battle_defender: Vec<i32>,
}

/// The entries a phase's scope covers.
pub open spec fn scope_entries(cfg: PassivePhaseConfig, c: CollectedPassives) -> Seq<(i64, Vec<i32>)> {
    if cfg.scope == PhaseScope::Attackers { c.attacker@ } else { c.defender@ }
}

/// `raw` is what the phase's skill set produces before shaping: round
/// sweeps of the scope's entities; a defender bootstrap over the
/// defenders in bootstrap order; or the battle-rule-only run over the
/// fielded living attackers in sorted rule order.
pub open spec fn phase_ran<F: Fn(i64, i32) -> Vec<Effect>>(
    cfg: PassivePhaseConfig,
    fight: Fight,
    c: CollectedPassives,
    extra: Seq<Vec<i32>>,
    rules: Seq<i32>,
    reactive: Seq<i32>,
    teammate: Seq<i32>,
    attackers: Seq<(i64, Vec<i32>)>,
    defender_only: Seq<i32>,
    career: Seq<i32>,
    execute: F,
    raw: Seq<StepV>,
) -> bool {
    match cfg.skill_set {
        PhaseSkillSet::DefenderBootstrap => exists|order: Seq<i32>, outs: Seq<Seq<Vec<Effect>>>|
            #![trigger is_bootstrap_order(order, lists_of(c.defender@), teammate, rules), grouped(outs, outs.len() as int)]
            is_bootstrap_order(order, lists_of(c.defender@), teammate, rules) && grouped_ran(
                execute,
                order,
                c.defender@,
                outs,
            ) && raw == grouped(outs, outs.len() as int),
        PhaseSkillSet::BattleRuleOnly => exists|order: Seq<i32>, outs: Seq<Seq<Vec<Effect>>>|
            #![trigger grouped_ran(execute, order, attackers, outs)]
            sorted_le(order) && order.to_multiset() == rule_candidates(
                lists_of(attackers),
                rules,
                defender_only,
                career,
            ).to_multiset() && grouped_ran(execute, order, attackers, outs) && raw == grouped(outs, outs.len() as int),
        _ => exists|es: Seq<Seq<Effect>>|
            #![trigger nonempty_steps(es, es.len() as int)]
            sweeps_ran(cfg, fight, scope_entries(cfg, c), extra, rules, c.battle_defender@, c.battle_attacker@, reactive, execute, es)
                && raw == nonempty_steps(es, es.len() as int),
    }
}

/// Runs a passive phase: which passives of which side run follows the
/// phase's skill set, scope and depth (see [`phase_ran`]); with the
/// flat-if-all-update shape the output is split into updates and the
/// wrapped rest (see [`split_output`]).
///
/// `extra[u]` are the buff-granted and magic-circle skills of the `u`-th
/// entity of the scope, `rules` the battle-rule skills, `reactive` the
/// skills with a combat-reactive condition, `teammate` those with the
/// "teammate alive, add a buff to self" condition, `attackers` the fielded
/// living attackers with their passives, `defender_only` the defender-side
/// rules, `career` the rules conditioned on a target career, and
/// `execute` a skill's output for an entity.
pub fn run_passive_phase<F: Fn(i64, i32) -> Vec<Effect>>(
    fight: &Fight,
    collected: &CollectedPassives,
    config: &PassivePhaseConfig,
    extra: &Vec<Vec<i32>>,
    rules: &Vec<i32>,
    reactive: &Vec<i32>,
    teammate: &Vec<i32>,
    attackers: &Vec<(i64, Vec<i32>)>,
    defender_only: &Vec<i32>,
    career: &Vec<i32>,
    execute: &F,
) -> (r: Vec<Step>)
    requires
        extra@.len() == scope_entries(*config, *collected).len(),
        forall|u: i64, sid: i32| call_requires(*execute, (u, sid)),
    ensures
        exists|raw: Seq<StepV>|
            #![trigger phase_ran(*config, *fight, *collected, extra@, rules@, reactive@, teammate@, attackers@, defender_only@, career@, *execute, raw)]
            phase_ran(
                *config,
                *fight,
                *collected,
                extra@,
                rules@,
                reactive@,
                teammate@,
                attackers@,
                defender_only@,
                career@,
                *execute,
                raw,
            ) && step_values(r@) == (if config.step_shape == PhaseStepShape::FlatIfAllUpdate {
                split_output(raw)
            } else {
                raw
            }),
{
    let steps = match config.skill_set {
        PhaseSkillSet::DefenderBootstrap => {
            let order = bootstrap_order(&collected.defender, teammate, rules);
            run_grouped(&order, &collected.defender, execute)
        },
        PhaseSkillSet::BattleRuleOnly => {
            let order = rule_only_order(attackers, rules, defender_only, career);
            run_grouped(&order, attackers, execute)
        },
        _ => {
            let entries = if config.scope == PhaseScope::Attackers { &collected.attacker } else { &collected.defender };
            run_sweeps(
                config,
                fight,
                entries,
                extra,
                rules,
                &collected.battle_defender,
                &collected.battle_attacker,
                reactive,
                execute,
            )
        },
    };
    let ghost raw = step_values(steps@);
    proof {
        assert(phase_ran(
            *config,
            *fight,
            *collected,
            extra@,
            rules@,
            reactive@,
            teammate@,
            attackers@,
            defender_only@,
            career@,
            *execute,
            raw,
        ));
    }
    if config.step_shape == PhaseStepShape::FlatIfAllUpdate {
        split_updates_and_wrap_rest(steps)
    } else {
        steps
    }
}

} // verus!
