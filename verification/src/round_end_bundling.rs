//! Which heroes a round-end step involves: as its source, its target, the
//! target of one of its effects, or the caster of a skill, anywhere in the
//! step's tree.
use std::collections::{HashMap, HashSet};
use vstd::prelude::*;
use crate::config::{BattleConfig, BuffActRow, SkillBuffRow};
use crate::heroes::HeroId;
use crate::text::{parse_field, parse_field_range, split, split_range};
use crate::step::{ActType, Effect, Step};

verus! {

/// How one hero is involved in a step.
#[derive(Debug, Clone, Copy, PartialEq, Eq, Structural)]
pub struct HeroStepSignals {
    pub from: bool,
    pub to: bool,
    pub targets: bool,
    pub skill_from: bool,
}

/// Not involved at all.
pub open spec fn no_signals() -> HeroStepSignals {
    HeroStepSignals { from: false, to: false, targets: false, skill_from: false }
}

impl Default for HeroStepSignals {
    fn default() -> (r: Self)
        ensures
            r == no_signals(),
    {
        HeroStepSignals { from: false, to: false, targets: false, skill_from: false }
    }
}

/// Signals per hero, keyed by the hero's model id.
#[derive(Debug)]
pub struct StepOwnership {
    by_hero: HashMap<i32, HeroStepSignals>,
}

impl View for StepOwnership {
    type V = Map<i32, HeroStepSignals>;

    closed spec fn view(&self) -> Map<i32, HeroStepSignals> {
        self.by_hero@
    }
}

impl Default for StepOwnership {
    fn default() -> (r: Self)
        ensures
            r@ == Map::<i32, HeroStepSignals>::empty(),
    {
        StepOwnership { by_hero: HashMap::new() }
    }
}

/// The signals of `hero`, none when it has no entry.
pub open spec fn hero_signals(m: Map<i32, HeroStepSignals>, hero: HeroId) -> HeroStepSignals {
    if m.contains_key(hero.spec_model_id()) { m[hero.spec_model_id()] } else { no_signals() }
}

/// No hero appears twice.
pub open spec fn distinct_heroes(v: Seq<(HeroId, i64)>) -> bool {
    forall|i: int, j: int| 0 <= i < j < v.len() ==> v[i].0 != v[j].0
}

impl StepOwnership {
    /// The signals of `hero`, none when the step did not record it.
    pub fn hero(&self, hero: HeroId) -> (r: HeroStepSignals)
        ensures
            r == hero_signals(self@, hero),
    {
        match self.by_hero.get(&hero.model_id()) {
            Some(s) => *s,
            None => HeroStepSignals { from: false, to: false, targets: false, skill_from: false },
        }
    }
}

proof fn lemma_model_ids_distinct(a: HeroId, b: HeroId)
    requires
        a != b,
    ensures
        a.spec_model_id() != b.spec_model_id(),
{
}


/// Index of the last act row with id `act_id` (a lookup by id keeps the
/// last row).
pub open spec fn last_act_row(acts: Seq<BuffActRow>, act_id: i32) -> Option<int>
    decreases acts.len(),
{
    if acts.len() == 0 {
        None
    } else if acts.last().id == act_id {
        Some(acts.len() - 1)
    } else {
        last_act_row(acts.drop_last(), act_id)
    }
}

/// The act type of a feature entry, when its act id reads and has a row.
pub open spec fn entry_act(acts: Seq<BuffActRow>, entry: Seq<u8>) -> Option<Seq<char>> {
    match parse_field(split(entry, 35u8)[0]) {
        Some(a) => match last_act_row(acts, a) {
            Some(i) => Some(acts[i].act_type@),
            None => None,
        },
        None => None,
    }
}

/// Whether some feature entry of `features` has act type `t`.
pub open spec fn features_have_act(acts: Seq<BuffActRow>, features: Seq<u8>, t: Seq<char>) -> bool {
    exists|e: int| 0 <= e < split(features, 124u8).len() && entry_act(acts, #[trigger] split(features, 124u8)[e]) == Some(t)
}

/// A buff row with features that carry every one of the `required` act
/// types.
pub open spec fn carries_acts(acts: Seq<BuffActRow>, row: SkillBuffRow, required: Seq<String>) -> bool {
    &&& row.features@.len() > 0
    &&& forall|q: int| 0 <= q < required.len() ==> features_have_act(acts, row.features@, #[trigger] required[q]@)
}

/// The ids of the buffs whose features carry every required act type.
pub open spec fn discovered(cfg: BattleConfig, required: Seq<String>) -> Set<i32> {
    Set::new(
        |id: i32| exists|i: int| 0 <= i < cfg.skill_buff@.len() && cfg.skill_buff@[i].id == id && carries_acts(
            cfg.buff_act@,
            #[trigger] cfg.skill_buff@[i],
            required,
        ),
    )
}

fn find_last_act(acts: &Vec<BuffActRow>, act_id: i32) -> (r: Option<usize>)
    ensures
        match r {
            Some(i) => i < acts@.len() && last_act_row(acts@, act_id) == Some(i as int),
            None => last_act_row(acts@, act_id).is_none(),
        },
{
    let mut found: Option<usize> = None;
    let mut i: usize = 0;
    while i < acts.len()
        invariant
            i <= acts@.len(),
            match found {
                Some(k) => k < i && last_act_row(acts@.take(i as int), act_id) == Some(k as int),
                None => last_act_row(acts@.take(i as int), act_id).is_none(),
            },
        decreases acts@.len() - i,
    {
        proof {
            assert(acts@.take(i + 1).drop_last() =~= acts@.take(i as int));
            assert(acts@.take(i + 1).last() == acts@[i as int]);
        }
        if acts[i].id == act_id {
            found = Some(i);
        }
        i += 1;
    }
    proof {
        assert(acts@.take(acts@.len() as int) =~= acts@);
    }
    found
}

fn has_act(cfg: &BattleConfig, text: &Vec<u8>, t: &String) -> (r: bool)
    ensures
        r == features_have_act(cfg.buff_act@, text@, t@),
{
    let ghost entries = split(text@, 124u8);
    let fields = split_range(text.as_slice(), 0, text.len(), 124u8);
    proof {
        assert(text@.subrange(0, text@.len() as int) =~= text@);
    }
    let mut k: usize = 0;
    while k < fields.len()
        invariant
            entries == split(text@, 124u8),
            fields@.len() == entries.len(),
            forall|i: int| 0 <= i < fields@.len() ==> #[trigger] fields@[i].0 <= fields@[i].1 <= text@.len(),
            forall|i: int| 0 <= i < fields@.len() ==> text@.subrange(#[trigger] fields@[i].0 as int, fields@[i].1 as int) == entries[i],
            k <= fields@.len(),
            forall|i: int| 0 <= i < k ==> entry_act(cfg.buff_act@, #[trigger] entries[i]) != Some(t@),
        decreases fields@.len() - k,
    {
        let (fa, fe) = fields[k];
        let parts = split_range(text.as_slice(), fa, fe, 35u8);
        proof {
            assert(text@.subrange(fa as int, fe as int) == entries[k as int]);
        }
        match parse_field_range(text.as_slice(), parts[0].0, parts[0].1) {
            Some(a) => match find_last_act(&cfg.buff_act, a) {
                Some(i) => {
                    if cfg.buff_act[i].act_type == *t {
                        proof {
                            assert(entry_act(cfg.buff_act@, entries[k as int]) == Some(t@));
                        }
                        return true;
                    }
                },
                None => {},
            },
            None => {},
        }
        k += 1;
    }
    false
}

/// The ids of the buffs whose features carry every act type of
/// `required_act_types` (buffs without features never qualify).
pub fn discover_buff_ids_with_acts(cfg: &BattleConfig, required_act_types: &Vec<String>) -> (r: HashSet<i32>)
    ensures
        r@ == discovered(*cfg, required_act_types@),
{
    let rows = &cfg.skill_buff;
    let mut out: HashSet<i32> = HashSet::new();
    let mut i: usize = 0;
    while i < rows.len()
        invariant
            i <= rows@.len(),
            rows@ == cfg.skill_buff@,
            forall|id: i32| #[trigger] out@.contains(id) <==> exists|j: int|
                0 <= j < i && rows@[j].id == id && carries_acts(cfg.buff_act@, #[trigger] rows@[j], required_act_types@),
        decreases rows@.len() - i,
    {
        let row = &rows[i];
        let mut ok = row.features.len() > 0;
        let mut q: usize = 0;
        while q < required_act_types.len() && ok
            invariant
                q <= required_act_types@.len(),
                ok ==> row.features@.len() > 0,
                ok ==> forall|k: int| 0 <= k < q ==> features_have_act(
                    cfg.buff_act@,
                    row.features@,
                    #[trigger] required_act_types@[k]@,
                ),
                !ok ==> !carries_acts(cfg.buff_act@, *row, required_act_types@),
            decreases required_act_types@.len() - q,
        {
            if !has_act(cfg, &row.features, &required_act_types[q]) {
                ok = false;
            }
            q += 1;
        }
        let ghost before = out@;
        if ok {
            out.insert(row.id);
        }
        proof {
            assert(rows@[i as int] == *row);
            assert forall|id: i32| #[trigger] out@.contains(id) <==> exists|j: int|
                0 <= j < i + 1 && rows@[j].id == id && carries_acts(cfg.buff_act@, #[trigger] rows@[j], required_act_types@) by {
                if id == row.id && ok {
                    assert(carries_acts(cfg.buff_act@, rows@[i as int], required_act_types@));
                } else if exists|j: int| 0 <= j < i + 1 && rows@[j].id == id && carries_acts(cfg.buff_act@, #[trigger] rows@[j], required_act_types@) {
                    let j = choose|j: int| 0 <= j < i + 1 && rows@[j].id == id && carries_acts(cfg.buff_act@, #[trigger] rows@[j], required_act_types@);
                    if j == i {
                        assert(ok);
                    }
                }
            }
        }
        i += 1;
    }
    proof {
        assert(out@ =~= discovered(*cfg, required_act_types@));
    }
    out
}

} // verus!

verus! {

/// Both sets of signals together.
pub open spec fn sig_or(a: HeroStepSignals, b: HeroStepSignals) -> HeroStepSignals {
    HeroStepSignals { from: a.from || b.from, to: a.to || b.to, targets: a.targets || b.targets, skill_from: a.skill_from || b.skill_from }
}

/// How `uid` is involved in step `s` itself (not its nested steps).
pub open spec fn own_signals(s: Step, uid: i64) -> HeroStepSignals {
    HeroStepSignals {
        from: s.from_id == Some(uid),
        to: s.to_id == Some(uid),
        targets: exists|k: int| 0 <= k < s.act_effect@.len() && (#[trigger] s.act_effect@[k]).target_id == Some(uid),
        skill_from: s.act_type == Some(ActType::Skill) && s.from_id == Some(uid),
    }
}

/// How `uid` is involved anywhere in the tree of `s`.
pub open spec fn tree_signals(s: Step, uid: i64) -> HeroStepSignals
    decreases s, 0int,
{
    sig_or(own_signals(s, uid), effects_signals(s.act_effect@, uid, s.act_effect@.len() as int))
}

/// How `uid` is involved in the steps nested in the first `n` effects.
pub open spec fn effects_signals(es: Seq<Effect>, uid: i64, n: int) -> HeroStepSignals
    decreases es, n,
{
    if n <= 0 || n > es.len() {
        no_signals()
    } else {
        let rest = effects_signals(es, uid, n - 1);
        match es[n - 1].fight_step {
            Some(c) => sig_or(rest, tree_signals(*c, uid)),
            None => rest,
        }
    }
}

fn step_tree_signals(s: &Step, uid: i64) -> (r: HeroStepSignals)
    ensures
        r == tree_signals(*s, uid),
    decreases s,
{
    let mut targets = false;
    let mut nested = HeroStepSignals { from: false, to: false, targets: false, skill_from: false };
    let mut k: usize = 0;
    while k < s.act_effect.len()
        invariant
            k <= s.act_effect@.len(),
            targets == exists|j: int| 0 <= j < k && (#[trigger] s.act_effect@[j]).target_id == Some(uid),
            nested == effects_signals(s.act_effect@, uid, k as int),
        decreases s.act_effect@.len() - k,
    {
        let e = &s.act_effect[k];
        if e.target_id == Some(uid) {
            targets = true;
        }
        match &e.fight_step {
            Some(c) => {
                let cs = step_tree_signals(c, uid);
                nested = HeroStepSignals {
                    from: nested.from || cs.from,
                    to: nested.to || cs.to,
                    targets: nested.targets || cs.targets,
                    skill_from: nested.skill_from || cs.skill_from,
                };
            },
            None => {},
        }
        k += 1;
    }
    let from = s.from_id == Some(uid);
    let own = HeroStepSignals {
        from,
        to: s.to_id == Some(uid),
        targets,
        skill_from: from && s.act_type == Some(ActType::Skill),
    };
    HeroStepSignals {
        from: own.from || nested.from,
        to: own.to || nested.to,
        targets: own.targets || nested.targets,
        skill_from: own.skill_from || nested.skill_from,
    }
}

/// The ownership of a step tree: every hero of `uid_by_hero` has the
/// signals of its uid anywhere in the tree.
pub open spec fn tree_ownership(s: Step, uid_by_hero: Seq<(HeroId, i64)>) -> Map<i32, HeroStepSignals> {
    Map::new(
        |m: i32| exists|k: int| 0 <= k < uid_by_hero.len() && #[trigger] uid_by_hero[k].0.spec_model_id() == m,
        |m: i32| {
            let k = choose|k: int| 0 <= k < uid_by_hero.len() && #[trigger] uid_by_hero[k].0.spec_model_id() == m;
            tree_signals(s, uid_by_hero[k].1)
        },
    )
}

/// Collects how each hero of `uid_by_hero` (hero and the uid it fights
/// under) is involved in `step`: as its source or target, as the target of
/// an effect, or as the caster of a skill, anywhere in its nested steps.
pub fn inspect(step: &Step, uid_by_hero: &Vec<(HeroId, i64)>) -> (r: StepOwnership)
    requires
        distinct_heroes(uid_by_hero@),
    ensures
        r@ == tree_ownership(*step, uid_by_hero@),
{
    let mut by_hero: HashMap<i32, HeroStepSignals> = HashMap::new();
    let mut k: usize = 0;
    while k < uid_by_hero.len()
        invariant
            k <= uid_by_hero@.len(),
            distinct_heroes(uid_by_hero@),
            forall|m: i32| #[trigger] by_hero@.contains_key(m) <==> exists|j: int|
                0 <= j < k && #[trigger] uid_by_hero@[j].0.spec_model_id() == m,
            forall|j: int| 0 <= j < k ==> #[trigger] by_hero@[uid_by_hero@[j].0.spec_model_id()] == tree_signals(
                *step,
                uid_by_hero@[j].1,
            ),
        decreases uid_by_hero@.len() - k,
    {
        let (hero, uid) = uid_by_hero[k];
        let sig = step_tree_signals(step, uid);
        let ghost before = by_hero@;
        by_hero.insert(hero.model_id(), sig);
        proof {
            assert forall|j: int| 0 <= j < k implies #[trigger] by_hero@[uid_by_hero@[j].0.spec_model_id()]
                == tree_signals(*step, uid_by_hero@[j].1) by {
                lemma_model_ids_distinct(uid_by_hero@[j].0, hero);
            }
            assert forall|m: i32| #[trigger] by_hero@.contains_key(m) <==> exists|j: int|
                0 <= j < k + 1 && #[trigger] uid_by_hero@[j].0.spec_model_id() == m by {
                if m == hero.spec_model_id() {
                    assert(uid_by_hero@[k as int].0.spec_model_id() == m);
                } else if before.contains_key(m) {
                    let j = choose|j: int| 0 <= j < k && #[trigger] uid_by_hero@[j].0.spec_model_id() == m;
                    assert(0 <= j < k + 1 && uid_by_hero@[j].0.spec_model_id() == m);
                }
            }
        }
        k += 1;
    }
    proof {
        let o = tree_ownership(*step, uid_by_hero@);
        assert forall|m: i32| by_hero@.contains_key(m) implies by_hero@[m] == o[m] by {
            let j = choose|j: int| 0 <= j < uid_by_hero@.len() && #[trigger] uid_by_hero@[j].0.spec_model_id() == m;
            let c = choose|c: int| 0 <= c < uid_by_hero@.len() && #[trigger] uid_by_hero@[c].0.spec_model_id() == m;
            if j != c {
                if j < c {
                    lemma_model_ids_distinct(uid_by_hero@[j].0, uid_by_hero@[c].0);
                } else {
                    lemma_model_ids_distinct(uid_by_hero@[c].0, uid_by_hero@[j].0);
                }
            }
        }
        assert(by_hero@ =~= o);
    }
    StepOwnership { by_hero }
}

} // verus!
