//! Hero identities and the small per-hero rules other modules consult.
use std::collections::HashMap;
use vstd::prelude::*;

verus! {

/// The heroes whose kits the battle logic special-cases.
#[derive(Debug, Clone, Copy, PartialEq, Eq, Structural, Hash)]
pub enum HeroId {
    Kakania,
    Melania,
    Nautika,
    Pickles,
    Recoleta,
    Rubuska,
    Semmelweis,
    Sentinel,
    Sotheby,
    Tuesday,
    Willow,
}

impl HeroId {
    /// The model id the hero's entities carry.
    pub open spec fn spec_model_id(self) -> i32 {
        match self {
            HeroId::Kakania => 3080,
            HeroId::Melania => 3062,
            HeroId::Nautika => 3120,
            HeroId::Pickles => 3063,
            HeroId::Recoleta => 3114,
            HeroId::Rubuska => 3125,
            HeroId::Semmelweis => 3088,
            HeroId::Sentinel => 3126,
            HeroId::Sotheby => 3009,
            HeroId::Tuesday => 3098,
            HeroId::Willow => 3104,
        }
    }

    /// The model id the hero's entities carry.
    pub fn model_id(self) -> (r: i32)
        ensures
            r == self.spec_model_id(),
    {
        match self {
            HeroId::Kakania => 3080,
            HeroId::Melania => 3062,
            HeroId::Nautika => 3120,
            HeroId::Pickles => 3063,
            HeroId::Recoleta => 3114,
            HeroId::Rubuska => 3125,
            HeroId::Semmelweis => 3088,
            HeroId::Sentinel => 3126,
            HeroId::Sotheby => 3009,
            HeroId::Tuesday => 3098,
            HeroId::Willow => 3104,
        }
    }
}

/// Whether `model_id` is the model of `hero`.
pub open spec fn is_hero(model_id: Option<i32>, hero: HeroId) -> bool {
    model_id == Some(hero.spec_model_id())
}

/// Whether the model is Kakania.
pub fn is_kakania(model_id: Option<i32>) -> (r: bool)
    ensures
        r == is_hero(model_id, HeroId::Kakania),
{
    model_id == Some(HeroId::Kakania.model_id())
}

/// Whether the model is Melania.
pub fn is_melania(model_id: Option<i32>) -> (r: bool)
    ensures
        r == is_hero(model_id, HeroId::Melania),
{
    model_id == Some(HeroId::Melania.model_id())
}

/// Whether the model is Nautika.
pub fn is_nautika(model_id: Option<i32>) -> (r: bool)
    ensures
        r == is_hero(model_id, HeroId::Nautika),
{
    model_id == Some(HeroId::Nautika.model_id())
}

/// Whether the model is Pickles.
pub fn is_pickles(model_id: Option<i32>) -> (r: bool)
    ensures
        r == is_hero(model_id, HeroId::Pickles),
{
    model_id == Some(HeroId::Pickles.model_id())
}

/// Whether the model is Recoleta.
pub fn is_recoleta(model_id: Option<i32>) -> (r: bool)
    ensures
        r == is_hero(model_id, HeroId::Recoleta),
{
    model_id == Some(HeroId::Recoleta.model_id())
}

/// Whether the model is Rubuska.
pub fn is_rubuska(model_id: Option<i32>) -> (r: bool)
    ensures
        r == is_hero(model_id, HeroId::Rubuska),
{
    model_id == Some(HeroId::Rubuska.model_id())
}

/// Whether the model is Tuesday.
pub fn is_tuesday(model_id: Option<i32>) -> (r: bool)
    ensures
        r == is_hero(model_id, HeroId::Tuesday),
{
    model_id == Some(HeroId::Tuesday.model_id())
}

/// Whether the model is Willow.
pub fn is_willow(model_id: Option<i32>) -> (r: bool)
    ensures
        r == is_hero(model_id, HeroId::Willow),
{
    model_id == Some(HeroId::Willow.model_id())
}

/// Sentinel's core passive, injected at hero load.
pub const ORPHAN_PASSIVE: i32 = 31260191;

/// Destiny stone id that activates Sotheby's Tier IV passive bundle.
pub const SOTHEBY_DESTINY_STONE: i32 = 300901;

/// Skills Sotheby's Tier IV destiny passive bundle adds to her passives.
pub const SOTHEBY_DESTINY_PASSIVE_SKILLS: [i32; 3] = [30090144, 30090145, 30090146];

/// Sentinel's injected passives: her core passive, or its upgraded
/// variant when the ex-skill upgrade map lists one.
pub fn passive_injections(ex_map: &HashMap<i32, i32>) -> (r: Vec<i32>)
    ensures
        r@ == seq![if ex_map@.contains_key(ORPHAN_PASSIVE) { ex_map@[ORPHAN_PASSIVE] } else { ORPHAN_PASSIVE }],
{
    let id = match ex_map.get(&ORPHAN_PASSIVE) {
        Some(v) => *v,
        None => ORPHAN_PASSIVE,
    };
    let mut r = Vec::new();
    r.push(id);
    proof { assert(r@ =~= seq![id]); }
    r
}

/// Replay-time bloodpool gain of a hero for one of the Tier IV ult's
/// packets: one for a hero whose kit is bloodtithe-enabled (listed in
/// `bloodtithe_heroes`), one more for Rubuska's Shadow Cloak.
pub fn ult_manual_gain(model_id: Option<i32>, bloodtithe_heroes: &[i32]) -> (r: i32)
    ensures
        r == match model_id {
            None => 0,
            Some(h) => (if bloodtithe_heroes@.contains(h) { 1int } else { 0int }) + (if is_hero(model_id, HeroId::Rubuska) {
                1int
            } else {
                0int
            }),
        },
{
    let hero_id = match model_id {
        None => return 0,
        Some(h) => h,
    };
    let mut gain: i32 = 0;
    let mut enabled = false;
    let mut i: usize = 0;
    while i < bloodtithe_heroes.len()
        invariant
            i <= bloodtithe_heroes@.len(),
            enabled == exists|j: int| 0 <= j < i && bloodtithe_heroes@[j] == hero_id,
        decreases bloodtithe_heroes@.len() - i,
    {
        if bloodtithe_heroes[i] == hero_id {
            enabled = true;
        }
        i += 1;
    }
    if enabled {
        gain += 1;
    }
    if is_rubuska(model_id) {
        gain += 1;
    }
    gain
}

} // verus!

verus! {

/// Nautika's uid on the side of `team_type` (`1` attackers, else
/// defenders): the uid of the first fielded entity with her model, `None`
/// when there is none or it has no uid.
pub open spec fn nautika_uid(fight: crate::fight::Fight, team_type: i32) -> Option<i64> {
    let side = if team_type == 1 { fight.attacker } else { fight.defender };
    match side {
        Some(t) => match crate::table::first_index(
            t.entitys@,
            |e: crate::fight::FightEntityInfo| is_hero(e.model_id, HeroId::Nautika),
        ) {
            Some(i) => t.entitys@[i].uid,
            None => None,
        },
        None => None,
    }
}

/// Nautika's uid on the side of `team_type`, if she fights there.
pub fn find_uid(fight: &crate::fight::Fight, team_type: i32) -> (r: Option<i64>)
    ensures
        r == nautika_uid(*fight, team_type),
{
    let side = if team_type == 1 { &fight.attacker } else { &fight.defender };
    let t = match side {
        Some(t) => t,
        None => return None,
    };
    let ghost p = |e: crate::fight::FightEntityInfo| is_hero(e.model_id, HeroId::Nautika);
    let mut i: usize = 0;
    while i < t.entitys.len()
        invariant
            i <= t.entitys@.len(),
            Some(*t) == (if team_type == 1 { fight.attacker } else { fight.defender }),
            p == (|e: crate::fight::FightEntityInfo| is_hero(e.model_id, HeroId::Nautika)),
            forall|j: int| 0 <= j < i ==> !p(#[trigger] t.entitys@[j]),
        decreases t.entitys@.len() - i,
    {
        if is_nautika(t.entitys[i].model_id) {
            proof { crate::table::lemma_first_index_is(t.entitys@, p, i as int); }
            return t.entitys[i].uid;
        }
        i += 1;
    }
    proof { crate::table::lemma_first_index_none(t.entitys@, p); }
    None
}

} // verus!
